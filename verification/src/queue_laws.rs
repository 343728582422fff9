//! What holds of a [`BufferedAtomicSeq`](crate::BufferedAtomicSeq) over many calls, and however
//! the steps of its writers and readers interleave.
//!
//! There may be any number of writers and of readers. Some of what is stated holds of a sole writer
//! or of a sole reader, and says so.
use vstd::arithmetic::div_mod::*;
use vstd::arithmetic::power2::*;
use vstd::pervasive::*;
use vstd::prelude::*;

use crate::atomic_item::claim_of;
use crate::atomic_item::read_effect;
use crate::atomic_item::read_step;
use crate::atomic_item::readable;
use crate::atomic_item::write_step;
use crate::atomic_item::ItemRead;
use crate::atomic_item::ItemState;
use crate::atomic_item::ItemWrite;
use crate::index::cursor_at;
use crate::index::cursor_count;
use crate::index::distance;
use crate::index::lemma_cursor_ahead;
use crate::index::lemma_cursor_slot;
use crate::index::lemma_cursor_slot_ahead;
use crate::index::lemma_cursors_differ;
use crate::index::lemma_distance_of;
use crate::index::lemma_len_divides_cursor_count;
use crate::index::lemma_slots_differ;
use crate::item_laws::inside;
use crate::item_laws::replacing;
use crate::scan::busy;
use crate::sequential_buffered_atomic::law_pending;
use crate::sequential_buffered_atomic::law_read_moves_one_cursor;
use crate::sequential_buffered_atomic::law_read_takes_first;
use crate::sequential_buffered_atomic::law_refused_only_when_full;
use crate::sequential_buffered_atomic::law_write_appends;
use crate::sequential_buffered_atomic::law_write_changes_one_slot;
use crate::sequential_buffered_atomic::QueueRing;
use crate::sequential_buffered_atomic::SeqRead;
use crate::sequential_buffered_atomic::SeqWrite;
use crate::tally::lemma_tally_bounds;
use crate::tally::lemma_tally_update;
use crate::tally::tally;

verus! {

/// A call on a queue.
pub enum Call<T> {
    Write { value: T },
    Read,
}

/// The queue after a call.
pub open spec fn after_call<T: Clone>(ring: QueueRing<T>, call: Call<T>) -> QueueRing<T> {
    match call {
        Call::Write { value } => if ring.accepts() {
            ring.written(value)
        } else {
            ring
        },
        Call::Read => if ring.count() > 0 {
            ring.taken()
        } else {
            ring
        },
    }
}

/// The queue after some calls, in order.
pub open spec fn after_calls<T: Clone>(ring: QueueRing<T>, calls: Seq<Call<T>>) -> QueueRing<T>
    decreases calls.len(),
{
    if calls.len() == 0 {
        ring
    } else {
        after_call(after_calls(ring, calls.drop_last()), calls.last())
    }
}

/// The values that some calls put into the queue, in order.
pub open spec fn accepted<T: Clone>(ring: QueueRing<T>, calls: Seq<Call<T>>) -> Seq<T>
    decreases calls.len(),
{
    if calls.len() == 0 {
        Seq::empty()
    } else {
        let earlier = accepted(ring, calls.drop_last());
        match calls.last() {
            Call::Write { value } if after_calls(ring, calls.drop_last()).accepts() => {
                earlier.push(value)
            },
            _ => earlier,
        }
    }
}

/// The values that some calls take out of the queue, in order.
pub open spec fn handed_out<T: Clone>(ring: QueueRing<T>, calls: Seq<Call<T>>) -> Seq<T>
    decreases calls.len(),
{
    if calls.len() == 0 {
        Seq::empty()
    } else {
        let earlier = handed_out(ring, calls.drop_last());
        let at = after_calls(ring, calls.drop_last());
        if calls.last() is Read && at.count() > 0 {
            earlier.push(at.pending()[0])
        } else {
            earlier
        }
    }
}

/// No value is lost and none overtakes another: what was waiting and what was accepted since is
/// what has been handed out and what is waiting now.
pub proof fn law_in_order<T: Clone>(ring: QueueRing<T>, calls: Seq<Call<T>>)
    requires
        ring.wf(),
    ensures
        after_calls(ring, calls).wf(),
        ring.pending() + accepted(ring, calls) == handed_out(ring, calls) + after_calls(
            ring,
            calls,
        ).pending(),
    decreases calls.len(),
{
    if calls.len() == 0 {
        assert(ring.pending() + Seq::empty() =~= Seq::empty() + ring.pending());
    } else {
        let earlier = calls.drop_last();
        let at = after_calls(ring, earlier);
        law_in_order(ring, earlier);
        match calls.last() {
            Call::Write { value } => {
                if at.accepts() {
                    law_write_appends(at, value);
                    assert(ring.pending() + accepted(ring, earlier).push(value) =~= (ring.pending()
                        + accepted(ring, earlier)).push(value));
                    assert(handed_out(ring, earlier) + at.pending().push(value) =~= (handed_out(
                        ring,
                        earlier,
                    ) + at.pending()).push(value));
                }
            },
            Call::Read => {
                if at.count() > 0 {
                    law_read_takes_first(at);
                    assert(handed_out(ring, earlier).push(at.pending()[0])
                        + at.pending().drop_first() =~= handed_out(ring, earlier) + at.pending());
                }
            },
        }
    }
}

/// Each call is a call more: what it puts in comes last, what it takes out comes last of what has been
/// taken out, and it does to the queue what it does by itself. A write puts its value in exactly if
/// fewer values are waiting than there are slots and nobody is inside the next one. A read takes out
/// the first value waiting, if there is one.
pub proof fn law_one_call_more<T: Clone>(ring: QueueRing<T>, calls: Seq<Call<T>>, call: Call<T>)
    requires
        ring.wf(),
    ensures
        after_calls(ring, Seq::<Call<T>>::empty()) == ring,
        accepted(ring, Seq::<Call<T>>::empty()) == Seq::<T>::empty(),
        handed_out(ring, Seq::<Call<T>>::empty()) == Seq::<T>::empty(),
        after_calls(ring, calls.push(call)) == after_call(after_calls(ring, calls), call),
        ({
            let at = after_calls(ring, calls);
            let item = at.items[at.write_cursor as int % (at.items.len() as int)];
            let room = at.pending().len() < at.items.len() && item.seq % 2 == 0 && item.readers == 0;
            &&& accepted(ring, calls.push(call)) == (if room && call is Write {
                accepted(ring, calls).push(call->value)
            } else {
                accepted(ring, calls)
            })
            &&& handed_out(ring, calls.push(call)) == (if at.pending().len() > 0 && call is Read {
                handed_out(ring, calls).push(at.pending()[0])
            } else {
                handed_out(ring, calls)
            })
        }),
{
    assert(calls.push(call).drop_last() =~= calls);
    law_in_order(ring, calls);
    law_refused_only_when_full(after_calls(ring, calls));
    law_pending(after_calls(ring, calls), 0);
}

/// While nobody is inside any slot, a queue does what a bounded queue does: a write adds its value at
/// the end if fewer values are waiting than there are slots and changes nothing if not, and a read
/// takes the first value away if there is one and changes nothing if not. Nobody is inside any slot
/// then either.
pub proof fn law_call_at_rest<T: Clone>(ring: QueueRing<T>, call: Call<T>)
    requires
        ring.wf(),
        forall|i: int|
            0 <= i < ring.items.len() ==> (#[trigger] ring.items[i]).seq % 2 == 0
                && ring.items[i].readers == 0,
    ensures
        ({
            let after = after_call(ring, call);
            &&& after.wf()
            &&& after.items.len() == ring.items.len()
            &&& forall|i: int|
                0 <= i < after.items.len() ==> (#[trigger] after.items[i]).seq % 2 == 0
                    && after.items[i].readers == 0
            &&& call is Write && ring.pending().len() < ring.items.len() ==> after.pending()
                == ring.pending().push(call->value)
            &&& call is Write && ring.pending().len() >= ring.items.len() ==> after == ring
            &&& call is Read && ring.pending().len() > 0 ==> after.pending()
                == ring.pending().drop_first()
            &&& call is Read && ring.pending().len() == 0 ==> after == ring
        }),
{
    law_refused_only_when_full(ring);
    law_pending(ring, 0);
    lemma_len_divides_cursor_count(ring.items.len() as int);
    lemma_mod_bound(ring.write_cursor as int, ring.items.len() as int);
    assert(ring.items[ring.write_cursor as int % (ring.items.len() as int)].seq % 2 == 0);
    match call {
        Call::Write { value } => {
            if ring.accepts() {
                law_write_appends(ring, value);
                law_write_changes_one_slot(ring, value);
            }
        },
        Call::Read => {
            if ring.count() > 0 {
                law_read_takes_first(ring);
            }
            law_read_moves_one_cursor(ring);
        },
    }
}

/// While nobody is inside any slot, as many writes in a row are accepted as there are slots to spare,
/// and their values wait in the order of the writes, behind those that were waiting.
pub proof fn law_writes_fill_the_queue<T: Clone>(ring: QueueRing<T>, values: Seq<T>)
    requires
        ring.wf(),
        forall|i: int|
            0 <= i < ring.items.len() ==> (#[trigger] ring.items[i]).seq % 2 == 0
                && ring.items[i].readers == 0,
        ring.pending().len() + values.len() <= ring.items.len(),
    ensures
        ({
            let calls = values.map_values(|value: T| Call::Write { value });
            let after = after_calls(ring, calls);
            &&& after.wf()
            &&& after.items.len() == ring.items.len()
            &&& forall|i: int|
                0 <= i < after.items.len() ==> (#[trigger] after.items[i]).seq % 2 == 0
                    && after.items[i].readers == 0
            &&& accepted(ring, calls) == values
            &&& after.pending() == ring.pending() + values
        }),
    decreases values.len(),
{
    let calls = values.map_values(|value: T| Call::Write { value });
    if values.len() == 0 {
        assert(calls =~= Seq::empty());
        law_one_call_more(ring, calls, Call::Read);
        assert(accepted(ring, calls) =~= values);
        assert(ring.pending() =~= ring.pending() + values);
    } else {
        let earlier = values.drop_last();
        let calls0 = earlier.map_values(|value: T| Call::Write { value });
        let call = Call::Write { value: values.last() };
        law_writes_fill_the_queue(ring, earlier);
        let at = after_calls(ring, calls0);
        assert(calls =~= calls0.push(call));
        law_one_call_more(ring, calls0, call);
        law_call_at_rest(at, call);
        lemma_len_divides_cursor_count(at.items.len() as int);
        lemma_mod_bound(at.write_cursor as int, at.items.len() as int);
        assert(at.items[at.write_cursor as int % (at.items.len() as int)].seq % 2 == 0);
        assert(values =~= earlier.push(values.last()));
        assert(after_calls(ring, calls).pending() =~= ring.pending() + values);
    }
}

/// As many reads in a row find a value as there are values waiting, and they find them in order.
pub proof fn law_reads_empty_the_queue<T: Clone>(ring: QueueRing<T>, count: nat)
    requires
        ring.wf(),
        count <= ring.pending().len(),
    ensures
        ({
            let calls = Seq::new(count, |i: int| Call::<T>::Read);
            let after = after_calls(ring, calls);
            &&& after.wf()
            &&& handed_out(ring, calls) == ring.pending().take(count as int)
            &&& after.pending() == ring.pending().skip(count as int)
            &&& after.items == ring.items
        }),
    decreases count,
{
    let calls = Seq::new(count, |i: int| Call::<T>::Read);
    if count == 0 {
        assert(calls =~= Seq::empty());
        law_one_call_more(ring, calls, Call::Read);
        assert(handed_out(ring, calls) =~= ring.pending().take(0));
        assert(ring.pending().skip(0) =~= ring.pending());
    } else {
        let calls0 = Seq::new((count - 1) as nat, |i: int| Call::<T>::Read);
        law_reads_empty_the_queue(ring, (count - 1) as nat);
        let at = after_calls(ring, calls0);
        assert(calls =~= calls0.push(Call::Read));
        law_one_call_more(ring, calls0, Call::Read);
        law_pending(at, 0);
        law_read_takes_first(at);
        law_read_moves_one_cursor(at);
        assert(handed_out(ring, calls) =~= ring.pending().take(count as int));
        assert(after_calls(ring, calls).pending() =~= ring.pending().skip(count as int));
    }
}

/// Where a writer is: between the steps of its write, or in the middle of the write to a slot.
pub enum Producing<T> {
    Outer { op: SeqWrite<T> },
    Slot { write_pos: usize, index: usize, slot_op: ItemWrite<T> },
}

/// Where a reader is: between the steps of its read, or in the middle of the read of a slot.
pub enum Consuming<T> {
    Outer { op: SeqRead<T> },
    Slot { read_pos: usize, index: usize, slot_op: ItemRead<T> },
}

/// A writer of a queue.
pub struct Producer<T> {
    pub at: Producing<T>,
    /// The value that the writer was given.
    pub given: T,
    /// How many values had been put into the queue when the writer loaded the write cursor.
    pub pos: nat,
}

/// A reader of a queue.
pub struct Consumer<T> {
    pub at: Consuming<T>,
    /// How many values had been taken out of the queue when the reader loaded the read cursor.
    pub pos: nat,
}

/// A queue with its writers and readers.
pub struct QueueSystem<T> where T: Clone {
    pub ring: QueueRing<T>,
    pub producers: Seq<Producer<T>>,
    pub consumers: Seq<Consumer<T>>,
    /// The values that have been put into the queue, in order.
    pub sent: Seq<T>,
    /// The values that have been taken out of the queue, in order.
    pub received: Seq<T>,
}

impl<T> Producer<T> {
    /// The writer has claimed a position and not yet moved the write cursor on.
    pub open spec fn at_work(self) -> bool {
        match self.at {
            Producing::Outer { op } => op is Attempt || op is Publish || op is Release,
            Producing::Slot { .. } => true,
        }
    }

    /// The writer is inside the slot `i`.
    pub open spec fn inside_slot(self, i: int) -> bool {
        self.at matches Producing::Slot { index, slot_op, .. } && index == i && inside(slot_op)
    }

    /// The writer has loaded the write cursor, and its write is not over.
    pub open spec fn under_way(self) -> bool {
        match self.at {
            Producing::Outer { op } => !(op is LoadWrite || op is Done),
            Producing::Slot { .. } => true,
        }
    }
}

impl<T> Consumer<T> {
    /// The reader has loaded the read cursor, and its read is not over.
    pub open spec fn under_way(self) -> bool {
        match self.at {
            Consuming::Outer { op } => !(op is LoadRead || op is Done),
            Consuming::Slot { .. } => true,
        }
    }

    /// The reader has marked its presence in the slot `i`.
    pub open spec fn present_in(self, i: int) -> bool {
        self.at matches Consuming::Slot { index, slot_op, .. } && index == i && slot_op.present()
    }
}

/// The reader copies the value in the slot in which the writer is replacing it.
pub open spec fn clash<T>(producer: Producer<T>, consumer: Consumer<T>) -> bool {
    producer.at matches Producing::Slot { index: i, slot_op: a, .. } && consumer.at matches
        Consuming::Slot { index: k, slot_op: b, .. } && i == k && replacing(a) && b is Copy
}

/// The writer has found the slot taken, and its write is not over yet.
pub open spec fn turned_away<T>(producer: Producer<T>) -> bool {
    match producer.at {
        Producing::Outer { op } => op is Release,
        Producing::Slot { slot_op, .. } => slot_op is Release || slot_op is Refused,
    }
}

impl<T> QueueSystem<T> where T: Clone {
    /// An empty queue that nobody has come to yet.
    pub open spec fn start(self) -> bool {
        let ring = self.ring;
        &&& is_pow2(ring.items.len() as int)
        &&& ring.items.len() <= usize::MAX
        &&& ring.write_claim == 0
        &&& ring.write_cursor == 0
        &&& ring.read_cursor == 0
        &&& self.consumers.len() <= usize::MAX
        &&& forall|i: int|
            0 <= i < ring.items.len() ==> (#[trigger] ring.items[i]).wf() && ring.items[i].admits()
        &&& forall|w: int|
            0 <= w < self.producers.len() ==> ((#[trigger] self.producers[w]).at matches
                Producing::Outer { op } && op is Done)
        &&& forall|r: int|
            0 <= r < self.consumers.len() ==> ((#[trigger] self.consumers[r]).at matches
                Consuming::Outer { op } && op is Done)
        &&& self.sent.len() == 0
        &&& self.received.len() == 0
    }

    /// The system once writer `w` has moved on.
    pub open spec fn producer_moves(self, w: int, at: Producing<T>) -> Self {
        let producer = Producer { at, ..self.producers[w] };
        QueueSystem { producers: self.producers.update(w, producer), ..self }
    }

    /// The system once reader `r` has moved on.
    pub open spec fn consumer_moves(self, r: int, at: Consuming<T>) -> Self {
        let consumer = Consumer { at, ..self.consumers[r] };
        QueueSystem { consumers: self.consumers.update(r, consumer), ..self }
    }

    /// Writer `w` takes its next step. When it is done it begins another write with whatever
    /// value it is given.
    pub open spec fn producer_step(self, next: Self, w: int) -> bool {
        let ring = self.ring;
        let Producer { at, given, pos } = self.producers[w];
        &&& 0 <= w < self.producers.len()
        &&& match at {
            Producing::Outer { op: SeqWrite::LoadWrite { value } } => {
                let op = SeqWrite::LoadRead { value, write_pos: ring.write_cursor };
                let producer = Producer {
                    at: Producing::Outer { op },
                    given,
                    pos: self.sent.len(),
                };
                next == (QueueSystem { producers: self.producers.update(w, producer), ..self })
            },
            Producing::Outer { op: SeqWrite::LoadRead { value, write_pos } } => {
                let len = ring.items.len() as int;
                let op = SeqWrite::checked(value, write_pos, ring.read_cursor, len);
                next == self.producer_moves(w, Producing::Outer { op })
            },
            Producing::Outer { op: SeqWrite::Claim { value, write_pos, index, cursor } } => {
                let won = ring.write_claim == write_pos;
                let op = SeqWrite::claimed(value, write_pos, index, won);
                let write_claim = if won {
                    cursor
                } else {
                    ring.write_claim
                };
                next == (QueueSystem {
                    ring: QueueRing { write_claim, ..ring },
                    ..self.producer_moves(w, Producing::Outer { op })
                })
            },
            Producing::Outer { op: SeqWrite::Attempt { value, write_pos, index } } => {
                let slot_op = ItemWrite::Load { value };
                next == self.producer_moves(w, Producing::Slot { write_pos, index, slot_op })
            },
            Producing::Slot { write_pos, index, slot_op: ItemWrite::Done } => {
                let op = SeqWrite::attempted(write_pos, Ok(()));
                next == self.producer_moves(w, Producing::Outer { op })
            },
            Producing::Slot { write_pos, index, slot_op: ItemWrite::Refused { value } } => {
                let op = SeqWrite::attempted(write_pos, Err(value));
                next == self.producer_moves(w, Producing::Outer { op })
            },
            Producing::Slot { write_pos, index, slot_op } => {
                let (slot_op, item) = write_step(slot_op, ring.items[index as int]);
                let items = ring.items.update(index as int, item);
                next == (QueueSystem {
                    ring: QueueRing { items, ..ring },
                    ..self.producer_moves(w, Producing::Slot { write_pos, index, slot_op })
                })
            },
            Producing::Outer { op: SeqWrite::Publish { cursor } } => {
                let op = SeqWrite::Done { result: Ok(()) };
                next == (QueueSystem {
                    ring: QueueRing { write_cursor: cursor, ..ring },
                    sent: self.sent.push(given),
                    ..self.producer_moves(w, Producing::Outer { op })
                })
            },
            Producing::Outer { op: SeqWrite::Release { write_pos } } => {
                let op = SeqWrite::Done { result: Err(()) };
                next == (QueueSystem {
                    ring: QueueRing { write_claim: write_pos, ..ring },
                    ..self.producer_moves(w, Producing::Outer { op })
                })
            },
            Producing::Outer { op: SeqWrite::Done { .. } } => {
                let given = next.producers[w].given;
                let op = SeqWrite::LoadWrite { value: given };
                let producer = Producer { at: Producing::Outer { op }, given, pos };
                next == (QueueSystem { producers: self.producers.update(w, producer), ..self })
            },
        }
    }

    /// Reader `r` takes its next step. When it is done it begins another read.
    pub open spec fn consumer_step(self, next: Self, r: int) -> bool {
        let ring = self.ring;
        let Consumer { at, pos } = self.consumers[r];
        &&& 0 <= r < self.consumers.len()
        &&& match at {
            Consuming::Outer { op: SeqRead::LoadRead } => {
                let op = SeqRead::LoadWrite { read_pos: ring.read_cursor };
                let consumer = Consumer {
                    at: Consuming::Outer { op },
                    pos: self.received.len(),
                };
                next == (QueueSystem { consumers: self.consumers.update(r, consumer), ..self })
            },
            Consuming::Outer { op: SeqRead::LoadWrite { read_pos } } => {
                let op = SeqRead::checked(read_pos, ring.write_cursor, ring.items.len() as int);
                next == self.consumer_moves(r, Consuming::Outer { op })
            },
            Consuming::Outer { op: SeqRead::Attempt { read_pos, index } } => {
                let slot_op = ItemRead::Enter;
                next == self.consumer_moves(r, Consuming::Slot { read_pos, index, slot_op })
            },
            Consuming::Slot { read_pos, index, slot_op: ItemRead::Done { result } } => {
                let op = SeqRead::attempted(read_pos, result);
                next == self.consumer_moves(r, Consuming::Outer { op })
            },
            Consuming::Slot { read_pos, index, slot_op } => {
                let item = ring.items[index as int];
                let items = ring.items.update(index as int, read_effect(slot_op, item));
                let op2 = next.consumers[r].at->slot_op;
                &&& read_step(slot_op, item, op2)
                &&& next == (QueueSystem {
                    ring: QueueRing { items, ..ring },
                    ..self.consumer_moves(r, Consuming::Slot { read_pos, index, slot_op: op2 })
                })
            },
            Consuming::Outer { op: SeqRead::Claim { read_pos, cursor, value } } => {
                let won = ring.read_cursor == read_pos;
                let moved = self.consumer_moves(
                    r,
                    Consuming::Outer { op: SeqRead::claimed(value, won) },
                );
                next == if won {
                    QueueSystem {
                        ring: QueueRing { read_cursor: cursor, ..ring },
                        received: self.received.push(value),
                        ..moved
                    }
                } else {
                    moved
                }
            },
            Consuming::Outer { op: SeqRead::Done { .. } } => {
                next == self.consumer_moves(r, Consuming::Outer { op: SeqRead::LoadRead })
            },
        }
    }

    /// Some writer or reader takes its next step.
    pub open spec fn step(self, next: Self) -> bool {
        ||| exists|w: int| self.producer_step(next, w)
        ||| exists|r: int| self.consumer_step(next, r)
    }

    /// No cursor has gone all the way round during a single call.
    pub open spec fn timely(self) -> bool {
        &&& forall|w: int|
            0 <= w < self.producers.len() && (#[trigger] self.producers[w]).under_way()
                ==> self.sent.len() - self.producers[w].pos < usize::MAX
        &&& forall|r: int|
            0 <= r < self.consumers.len() && (#[trigger] self.consumers[r]).under_way()
                ==> self.received.len() - self.consumers[r].pos < usize::MAX
    }

    /// Some writer has claimed a position and not yet moved the write cursor on.
    pub open spec fn someone_at_work(self) -> bool {
        exists|w: int| 0 <= w < self.producers.len() && (#[trigger] self.producers[w]).at_work()
    }

    /// A writer other than `w` has claimed a position and not yet moved the write cursor on.
    pub open spec fn another_at_work(self, w: int) -> bool {
        exists|v: int|
            0 <= v < self.producers.len() && v != w && (#[trigger] self.producers[v]).at_work()
    }

    /// For each reader, whether it has marked its presence in the slot `i`.
    pub open spec fn marks(self, i: int) -> Seq<bool> {
        self.consumers.map_values(|consumer: Consumer<T>| consumer.present_in(i))
    }

    /// Some reader has marked its presence in the slot `i`.
    pub open spec fn visited(self, i: int) -> bool {
        exists|r: int|
            0 <= r < self.consumers.len() && (#[trigger] self.consumers[r]).present_in(i)
    }

    /// How many values are waiting to be read.
    pub open spec fn waiting(self) -> int {
        self.sent.len() - self.received.len()
    }

    /// Some writer is inside the slot `i`.
    pub open spec fn held(self, i: int) -> bool {
        exists|w: int|
            0 <= w < self.producers.len() && (#[trigger] self.producers[w]).inside_slot(i)
    }

    /// The writer is where it can be.
    pub open spec fn producer_ok(self, producer: Producer<T>) -> bool {
        let Producer { at, given, pos } = producer;
        let n = self.sent.len();
        let ring = self.ring;
        let item = ring.items[ring.slot(pos as int)];
        let in_place = readable(item.seq) && item.value == Some(given);
        let mine = pos == n && self.waiting() < ring.items.len();
        &&& producer.under_way() ==> pos <= n
        &&& match at {
            Producing::Outer { op: SeqWrite::LoadWrite { value } } => value == given,
            Producing::Outer { op: SeqWrite::LoadRead { value, write_pos } } => {
                value == given && write_pos == cursor_at(pos as int)
            },
            Producing::Outer { op: SeqWrite::Claim { value, write_pos, index, cursor } } => {
                &&& value == given
                &&& write_pos == cursor_at(pos as int)
                &&& index == ring.slot(pos as int)
                &&& cursor == cursor_at(pos as int + 1)
                &&& pos == n ==> self.waiting() < ring.items.len()
            },
            Producing::Outer { op: SeqWrite::Attempt { value, write_pos, index } } => {
                &&& value == given
                &&& write_pos == cursor_at(pos as int)
                &&& index == ring.slot(pos as int)
                &&& mine
            },
            Producing::Outer { op: SeqWrite::Publish { cursor } } => {
                cursor == cursor_at(pos as int + 1) && mine && in_place
            },
            Producing::Outer { op: SeqWrite::Release { write_pos } } => {
                write_pos == cursor_at(pos as int) && mine
            },
            Producing::Outer { op: SeqWrite::Done { .. } } => true,
            Producing::Slot { write_pos, index, slot_op } => {
                &&& write_pos == cursor_at(pos as int)
                &&& index == ring.slot(pos as int)
                &&& mine
                &&& match slot_op {
                    ItemWrite::Load { value } => value == given,
                    ItemWrite::Claim { value, seen, claim } => {
                        &&& value == given
                        &&& seen == item.seq
                        &&& !busy(seen)
                        &&& claim == claim_of(seen)
                    },
                    ItemWrite::Inspect { value, seen } => {
                        &&& value == given
                        &&& !busy(seen)
                        &&& (ItemState { seq: seen, ..item }).wf()
                    },
                    ItemWrite::Store { value, .. } => value == given,
                    ItemWrite::Publish => item.value == Some(given),
                    ItemWrite::Release { seen, .. } => {
                        !busy(seen) && (ItemState { seq: seen, ..item }).wf()
                    },
                    ItemWrite::Done => in_place,
                    ItemWrite::Refused { .. } => true,
                }
            },
        }
    }

    /// The reader is where it can be. Of one whose cursor has been moved on by another reader,
    /// nothing is known.
    pub open spec fn consumer_ok(self, consumer: Consumer<T>) -> bool {
        let Consumer { at, pos } = consumer;
        let m = self.received.len();
        let ring = self.ring;
        let item = ring.items[ring.slot(pos as int)];
        &&& consumer.under_way() ==> pos <= m
        &&& match at {
            Consuming::Outer { op: SeqRead::LoadWrite { read_pos } } => {
                read_pos == cursor_at(pos as int)
            },
            Consuming::Outer { op: SeqRead::Attempt { read_pos, index } } => {
                &&& read_pos == cursor_at(pos as int)
                &&& index == ring.slot(pos as int)
                &&& pos == m ==> self.waiting() > 0
            },
            Consuming::Outer { op: SeqRead::Claim { read_pos, cursor, value } } => {
                &&& read_pos == cursor_at(pos as int)
                &&& cursor == cursor_at(pos as int + 1)
                &&& pos == m ==> self.waiting() > 0 && strictly_cloned(self.sent[pos as int], value)
            },
            Consuming::Outer { .. } => true,
            Consuming::Slot { read_pos, index, slot_op } => {
                &&& read_pos == cursor_at(pos as int)
                &&& index == ring.slot(pos as int)
                &&& pos == m ==> {
                    &&& self.waiting() > 0
                    &&& match slot_op {
                        ItemRead::Enter | ItemRead::Load => true,
                        ItemRead::Copy { seen } => seen == item.seq,
                        ItemRead::Validate { seen, copy } => {
                            seen == item.seq && strictly_cloned(self.sent[pos as int], copy)
                        },
                        ItemRead::Leave { result } | ItemRead::Done { result } => {
                            result is Some && strictly_cloned(self.sent[pos as int], result->0)
                        },
                    }
                }
            },
        }
    }

    /// What holds of every state that the system can reach.
    pub open spec fn inv(self) -> bool {
        let ring = self.ring;
        let len = ring.items.len() as int;
        let n = self.sent.len() as int;
        let m = self.received.len() as int;
        &&& is_pow2(len)
        &&& len <= usize::MAX
        &&& 0 <= self.waiting() <= len
        &&& ring.write_cursor == cursor_at(n)
        &&& ring.read_cursor == cursor_at(m)
        // At most one writer has claimed a position, and it is the next one.
        &&& ring.write_claim == cursor_at(
            if self.someone_at_work() {
                n + 1
            } else {
                n
            },
        )
        &&& forall|v: int, w: int|
            0 <= v < self.producers.len() && 0 <= w < self.producers.len() && (
            #[trigger] self.producers[v]).at_work() && (#[trigger] self.producers[w]).at_work()
                ==> v == w
        // A slot has an odd number exactly while some writer is inside, and tells how many readers
        // have marked their presence in it.
        &&& self.consumers.len() <= usize::MAX
        &&& forall|i: int|
            0 <= i < len ==> {
                &&& (#[trigger] ring.items[i]).wf()
                &&& busy(ring.items[i].seq) <==> self.held(i)
                &&& ring.items[i].readers == tally(self.marks(i))
            }
        // A value that is being replaced is not looked at.
        &&& forall|w: int, r: int|
            0 <= w < self.producers.len() && 0 <= r < self.consumers.len() ==> !clash(
                #[trigger] self.producers[w],
                #[trigger] self.consumers[r],
            )
        // Every value put in and not yet taken out is in place.
        &&& forall|k: int|
            m <= k < n ==> {
                &&& readable(ring.items[#[trigger] ring.slot(k)].seq)
                &&& ring.items[ring.slot(k)].value == Some(self.sent[k])
            }
        // Every value taken out is a copy of the one put in at its place.
        &&& forall|k: int| 0 <= k < m ==> strictly_cloned(self.sent[k], #[trigger] self.received[k])
        &&& forall|w: int|
            0 <= w < self.producers.len() ==> self.producer_ok(#[trigger] self.producers[w])
        &&& forall|r: int|
            0 <= r < self.consumers.len() ==> self.consumer_ok(#[trigger] self.consumers[r])
        // A sole writer or reader finds its cursor as it left it.
        &&& self.producers.len() == 1 && self.producers[0].under_way() ==> self.producers[0].pos
            == n
        &&& self.consumers.len() == 1 && self.consumers[0].under_way() ==> self.consumers[0].pos
            == m
        // A sole reader is never in the way of a sole writer.
        &&& self.producers.len() == 1 && self.consumers.len() == 1 ==> !turned_away(
            self.producers[0],
        )
    }
}

/// An empty queue is in order.
pub proof fn law_queue_start<T: Clone>(s: QueueSystem<T>)
    requires
        s.start(),
    ensures
        s.inv(),
{
    lemma_small_mod(0, cursor_count() as nat);
    assert forall|i: int| 0 <= i < s.ring.items.len() implies tally(#[trigger] s.marks(i)) == 0 by {
        lemma_tally_bounds(s.marks(i));
        assert forall|r: int| 0 <= r < s.marks(i).len() implies !#[trigger] s.marks(i)[r] by {
            assert(s.consumers[r].at is Outer);
        }
    }
}

/// Whatever step is taken next, the queue stays in order. This leaves out a call during which a
/// cursor went all the way round.
pub proof fn law_queue_step<T: Clone>(s: QueueSystem<T>, next: QueueSystem<T>)
    requires
        s.inv(),
        s.step(next),
        s.timely(),
    ensures
        next.inv(),
{
    if exists|w: int| s.producer_step(next, w) {
        let w = choose|w: int| s.producer_step(next, w);
        lemma_producer_step(s, next, w);
    } else {
        let r = choose|r: int| s.consumer_step(next, r);
        lemma_consumer_step(s, next, r);
    }
}

/// The cursors tell how many values are waiting.
proof fn lemma_waiting<T: Clone>(s: QueueSystem<T>)
    requires
        s.inv(),
    ensures
        distance(s.ring.read_cursor, s.ring.write_cursor) == s.waiting(),
{
    let m = s.received.len() as int;
    lemma_cursor_ahead(m, s.waiting());
    lemma_distance_of(s.ring.read_cursor, s.waiting());
}

/// A slot tells of no reader exactly if no reader has marked its presence in it.
proof fn lemma_visited<T: Clone>(s: QueueSystem<T>, i: int)
    requires
        s.inv(),
        0 <= i < s.ring.items.len(),
    ensures
        s.ring.items[i].readers == 0 <==> !s.visited(i),
{
    lemma_tally_bounds(s.marks(i));
    assert(s.ring.items[i].readers == tally(s.marks(i)));
    if s.visited(i) {
        let r = choose|r: int|
            0 <= r < s.consumers.len() && (#[trigger] s.consumers[r]).present_in(i);
        assert(s.marks(i)[r]);
    }
    if !s.visited(i) {
        assert forall|r: int| 0 <= r < s.marks(i).len() implies !#[trigger] s.marks(i)[r] by {
            assert(!s.consumers[r].present_in(i));
        }
    }
}

/// A sole reader is never in the slot of the next write.
proof fn lemma_sole_reader_elsewhere<T: Clone>(s: QueueSystem<T>)
    requires
        s.inv(),
        s.consumers.len() == 1,
        s.waiting() < s.ring.items.len(),
    ensures
        !s.visited(s.ring.slot(s.sent.len() as int)),
{
    let len = s.ring.items.len() as int;
    let n = s.sent.len() as int;
    let m = s.received.len() as int;
    assert(s.consumer_ok(s.consumers[0]));
    if s.visited(s.ring.slot(n)) {
        assert(s.consumers[0].present_in(s.ring.slot(n)));
        lemma_slots_differ(m, n, len);
    }
}

proof fn lemma_producer_step<T: Clone>(s: QueueSystem<T>, next: QueueSystem<T>, w: int)
    requires
        s.inv(),
        s.producer_step(next, w),
        s.timely(),
    ensures
        next.inv(),
{
    let len = s.ring.items.len() as int;
    let n = s.sent.len() as int;
    let m = s.received.len() as int;
    let producer = s.producers[w];
    let pos = producer.pos as int;
    let at = s.ring.slot(pos);
    lemma_waiting(s);
    lemma_cursor_slot(pos, len);
    lemma_cursor_ahead(pos, 1);
    lemma_mod_bound(pos, len);
    lemma_mod_bound(n, len);
    assert(s.producer_ok(producer));
    assert(s.ring.items[at].wf());
    assert(busy(s.ring.items[at].seq) <==> s.held(at));
    assert(forall|v: int|
        0 <= v < s.producers.len() && v != w ==> #[trigger] next.producers[v] == s.producers[v]);
    assert(forall|k: int| #[trigger] next.ring.slot(k) == s.ring.slot(k));
    // Only the slot of a writer that has claimed it changes, and that is no slot of a value that
    // is waiting.
    assert(next.producers[w].at_work() || next.ring.items =~= s.ring.items);
    if s.someone_at_work() {
        let v = choose|v: int| 0 <= v < s.producers.len() && (#[trigger] s.producers[v]).at_work();
        assert(s.producer_ok(s.producers[v]));
        assert(v != w ==> next.producers[v].at_work());
    }
    assert(next.producers[w].at_work() ==> next.someone_at_work());
    if producer.under_way() && pos < n {
        lemma_cursors_differ(pos, n);
    }
    if producer.under_way() {
        lemma_cursors_differ(pos, n + 1);
    }
    assert(forall|i: int|
        0 <= i < len && i != at ==> #[trigger] next.ring.items[i] == s.ring.items[i]);
    lemma_visited(s, at);
    if s.consumers.len() == 1 && s.producers.len() == 1 && s.waiting() < len {
        lemma_sole_reader_elsewhere(s);
    }
    assert forall|v: int, r: int|
        0 <= v < next.producers.len() && 0 <= r < next.consumers.len() implies !clash(
        #[trigger] next.producers[v],
        #[trigger] next.consumers[r],
    ) by {
        assert(!clash(s.producers[v], s.consumers[r]));
        assert(s.consumers[r].present_in(at) ==> s.visited(at));
    }
    assert forall|i: int| 0 <= i < len implies {
        &&& (#[trigger] next.ring.items[i]).wf()
        &&& busy(next.ring.items[i].seq) <==> next.held(i)
        &&& next.ring.items[i].readers == tally(next.marks(i))
    } by {
        assert(s.ring.items[i].wf());
        assert(next.marks(i) == s.marks(i));
        if s.held(i) {
            let v = choose|v: int|
                0 <= v < s.producers.len() && (#[trigger] s.producers[v]).inside_slot(i);
            assert(v != w ==> next.producers[v].inside_slot(i));
        }
        assert(next.producers[w].inside_slot(i) ==> next.held(i));
    }
    assert forall|k: int| m <= k < next.sent.len() implies readable(
        next.ring.items[#[trigger] next.ring.slot(k)].seq,
    ) && next.ring.items[next.ring.slot(k)].value == Some(next.sent[k]) by {
        lemma_mod_bound(k, len);
        if k < n {
            assert(readable(s.ring.items[s.ring.slot(k)].seq));
            if s.waiting() < len {
                lemma_slots_differ(k, n, len);
            }
        }
    }
    assert forall|v: int| 0 <= v < next.producers.len() implies next.producer_ok(
        #[trigger] next.producers[v],
    ) by {
        assert(s.producer_ok(s.producers[v]));
    }
    assert forall|r: int| 0 <= r < next.consumers.len() implies next.consumer_ok(
        #[trigger] next.consumers[r],
    ) by {
        assert(s.consumer_ok(s.consumers[r]));
        lemma_mod_bound(s.consumers[r].pos as int, len);
        if 0 < s.waiting() < len {
            lemma_slots_differ(m, n, len);
        }
    }
}

proof fn lemma_consumer_step<T: Clone>(s: QueueSystem<T>, next: QueueSystem<T>, r: int)
    requires
        s.inv(),
        s.consumer_step(next, r),
        s.timely(),
    ensures
        next.inv(),
{
    let len = s.ring.items.len() as int;
    let m = s.received.len() as int;
    let pos = s.consumers[r].pos as int;
    lemma_waiting(s);
    lemma_cursor_slot(pos, len);
    lemma_cursor_ahead(pos, 1);
    lemma_mod_bound(pos, len);
    assert(s.consumer_ok(s.consumers[r]));
    assert(s.waiting() > 0 ==> readable(s.ring.items[s.ring.slot(m)].seq));
    assert(next.producers == s.producers);
    if s.consumers[r].under_way() && pos < m {
        lemma_cursors_differ(pos, m);
    }
    assert(forall|k: int| #[trigger] next.ring.slot(k) == s.ring.slot(k));
    assert(forall|i: int|
        0 <= i < len ==> (#[trigger] next.ring.items[i]).seq == s.ring.items[i].seq
            && next.ring.items[i].value == s.ring.items[i].value);
    assert(forall|i: int| #[trigger] next.held(i) == s.held(i));
    assert(next.someone_at_work() == s.someone_at_work());
    assert forall|i: int| 0 <= i < len implies {
        &&& (#[trigger] next.ring.items[i]).wf()
        &&& busy(next.ring.items[i].seq) <==> next.held(i)
        &&& next.ring.items[i].readers == tally(next.marks(i))
    } by {
        assert(s.ring.items[i].wf());
        let present = next.consumers[r].present_in(i);
        assert(next.marks(i) =~= s.marks(i).update(r, present));
        lemma_tally_update(s.marks(i), r, present);
        lemma_tally_bounds(next.marks(i));
    }
    assert forall|w: int, q: int|
        0 <= w < next.producers.len() && 0 <= q < next.consumers.len() implies !clash(
        #[trigger] next.producers[w],
        #[trigger] next.consumers[q],
    ) by {
        assert(!clash(s.producers[w], s.consumers[q]));
        if q == r {
            if let Producing::Slot { index, slot_op, .. } = s.producers[w].at {
                assert(s.producer_ok(s.producers[w]));
                assert(s.producers[w].inside_slot(index as int) ==> s.held(index as int));
            }
        }
    }
    assert forall|w: int| 0 <= w < next.producers.len() implies next.producer_ok(
        #[trigger] next.producers[w],
    ) by {
        assert(s.producer_ok(s.producers[w]));
        lemma_mod_bound(s.producers[w].pos as int, len);
    }
    assert forall|q: int| 0 <= q < next.consumers.len() implies next.consumer_ok(
        #[trigger] next.consumers[q],
    ) by {
        assert(s.consumer_ok(s.consumers[q]));
        lemma_mod_bound(s.consumers[q].pos as int, len);
    }
    assert forall|k: int| next.received.len() <= k < next.sent.len() implies readable(
        next.ring.items[#[trigger] next.ring.slot(k)].seq,
    ) && next.ring.items[next.ring.slot(k)].value == Some(next.sent[k]) by {
        lemma_mod_bound(k, len);
        assert(readable(s.ring.items[s.ring.slot(k)].seq));
    }
}

/// With one writer and one reader no cursor ever goes round during a call.
pub proof fn law_pair_is_timely<T: Clone>(s: QueueSystem<T>)
    requires
        s.inv(),
        s.producers.len() == 1,
        s.consumers.len() == 1,
    ensures
        s.timely(),
{
}

/// At most one writer is at work, and it is at the next position.
pub proof fn law_one_writer_at_work<T: Clone>(s: QueueSystem<T>, v: int, w: int)
    requires
        s.inv(),
        0 <= v < s.producers.len(),
        0 <= w < s.producers.len(),
    ensures
        s.producers[v].at_work() && s.producers[w].at_work() ==> v == w,
        s.producers[v].at_work() ==> s.producers[v].pos == s.sent.len() && s.waiting()
            < s.ring.items.len(),
{
    assert(s.producer_ok(s.producers[v]));
}

/// What has been put in stays put in, what has been taken out stays taken out, and the cursors tell
/// how much that is: no cursor ever moves back.
pub proof fn law_cursors_move_on<T: Clone>(s: QueueSystem<T>, next: QueueSystem<T>)
    requires
        s.inv(),
        s.step(next),
        s.timely(),
    ensures
        s.sent.is_prefix_of(next.sent),
        s.received.is_prefix_of(next.received),
        next.ring.write_cursor == cursor_at(next.sent.len() as int),
        next.ring.read_cursor == cursor_at(next.received.len() as int),
{
    law_queue_step(s, next);
    assert(s.sent.is_prefix_of(next.sent));
    assert(s.received.is_prefix_of(next.received));
}

/// The readers take out what the writers have put in, value by value and in order, and what they
/// have not taken out yet is waiting in the queue.
pub proof fn law_nothing_lost<T: Clone>(s: QueueSystem<T>)
    requires
        s.inv(),
    ensures
        s.received.len() <= s.sent.len(),
        forall|k: int|
            0 <= k < s.received.len() ==> strictly_cloned(s.sent[k], #[trigger] s.received[k]),
        s.ring.pending() == s.sent.skip(s.received.len() as int),
{
    let m = s.received.len() as int;
    lemma_waiting(s);
    assert forall|i: int| 0 <= i < s.waiting() implies s.ring.pending()[i] == s.sent[m + i] by {
        lemma_cursor_slot_ahead(m, i, s.ring.items.len() as int);
        assert(s.ring.items[s.ring.slot(m + i)].value == Some(s.sent[m + i]));
    }
    assert(s.ring.pending() =~= s.sent.skip(m));
}

/// A value that is being replaced is never looked at: while a reader copies the value in a slot, no
/// writer is about to drop it or to put another in its place.
pub proof fn law_queue_no_look_while_replacing<T: Clone>(s: QueueSystem<T>, w: int, r: int)
    requires
        s.inv(),
        0 <= w < s.producers.len(),
        0 <= r < s.consumers.len(),
    ensures
        !(s.producers[w].at matches Producing::Slot { index: i, slot_op: a, .. }
            && s.consumers[r].at matches Consuming::Slot { index: k, slot_op: b, .. } && i == k
            && replacing(a) && b is Copy),
{
    assert(!clash(s.producers[w], s.consumers[r]));
}

/// A write that is not refused has put the value it was given into the queue, once, and one that is
/// refused has put nothing in. It is refused only when it finds the queue full, when another writer
/// is at work or has moved the write cursor on, or when it has been turned away from the slot. With a
/// sole writer and a sole reader it is refused only when the queue is full.
pub proof fn law_write_outcome<T: Clone>(
    s: QueueSystem<T>,
    next: QueueSystem<T>,
    w: int,
    result: Result<(), ()>,
)
    requires
        s.inv(),
        s.producer_step(next, w),
        next.producers[w].at == (Producing::Outer { op: SeqWrite::<T>::Done { result } }),
    ensures
        result is Ok ==> next.sent == s.sent.push(s.producers[w].given),
        result is Err ==> next.sent == s.sent && next.ring == (QueueRing {
            write_claim: next.ring.write_claim,
            ..s.ring
        }),
        result is Err ==> s.waiting() == s.ring.items.len() || s.another_at_work(w)
            || s.producers[w].pos < s.sent.len() || turned_away(s.producers[w]),
        result is Err && s.producers.len() == 1 ==> s.waiting() == s.ring.items.len()
            || turned_away(s.producers[w]),
        result is Err && s.producers.len() == 1 && s.consumers.len() == 1 ==> s.waiting()
            == s.ring.items.len(),
{
    lemma_waiting(s);
    assert(s.producer_ok(s.producers[w]));
    if s.someone_at_work() {
        let v = choose|v: int| 0 <= v < s.producers.len() && (#[trigger] s.producers[v]).at_work();
        assert(s.producers.len() == 1 ==> v == w);
        assert(v != w ==> s.another_at_work(w));
    }
}

/// A writer is turned away from its slot only while a reader is inside it that has been overtaken by
/// another: one that came for the value of an earlier round.
pub proof fn law_turned_away<T: Clone>(s: QueueSystem<T>, next: QueueSystem<T>, w: int)
    requires
        s.inv(),
        s.producer_step(next, w),
        s.producers[w].at is Slot,
        !turned_away(s.producers[w]),
        turned_away(next.producers[w]),
    ensures
        exists|r: int|
            {
                &&& 0 <= r < s.consumers.len()
                &&& (#[trigger] s.consumers[r]).present_in(s.ring.slot(s.sent.len() as int))
                &&& s.consumers[r].pos < s.received.len()
            },
{
    let len = s.ring.items.len() as int;
    let n = s.sent.len() as int;
    let m = s.received.len() as int;
    let at = s.ring.slot(n);
    lemma_mod_bound(n, len);
    assert(s.producer_ok(s.producers[w]));
    assert(busy(s.ring.items[at].seq) <==> s.held(at));
    if s.held(at) {
        let v = choose|v: int|
            0 <= v < s.producers.len() && (#[trigger] s.producers[v]).inside_slot(at);
        assert(s.producers[v].at_work());
        assert(s.producers[w].at_work());
    }
    lemma_visited(s, at);
    let r = choose|r: int| 0 <= r < s.consumers.len() && (#[trigger] s.consumers[r]).present_in(at);
    assert(s.consumer_ok(s.consumers[r]));
    if s.consumers[r].pos == m {
        lemma_slots_differ(m, n, len);
    }
}

/// A read that finds a value has taken it out of the queue, and one that finds none has taken
/// nothing out. It finds none only when the queue is empty, or when another reader has moved the
/// read cursor on. A sole reader finds none only when the queue is empty.
pub proof fn law_read_outcome<T: Clone>(
    s: QueueSystem<T>,
    next: QueueSystem<T>,
    r: int,
    result: Option<T>,
)
    requires
        s.inv(),
        s.consumer_step(next, r),
        next.consumers[r].at == (Consuming::Outer { op: SeqRead::Done { result } }),
    ensures
        result is Some ==> next.received == s.received.push(result->0),
        result is None ==> next.received == s.received && next.ring == s.ring,
        result is None ==> s.waiting() == 0 || s.consumers[r].pos < s.received.len(),
        result is None && s.consumers.len() == 1 ==> s.waiting() == 0,
{
    lemma_waiting(s);
    lemma_small_mod(0, cursor_count() as nat);
    assert(s.consumer_ok(s.consumers[r]));
}

} // verus!
