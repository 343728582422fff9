//! What holds of one [`AtomicItem`](crate::AtomicItem) however the steps of its writers and readers
//! interleave.
//!
//! A system is a slot with any number of writers and readers, each at some step of its own. A
//! step of the system is a step of one of them. Between two steps, any other may take any number
//! of steps.
use vstd::arithmetic::div_mod::*;
use vstd::pervasive::*;
use vstd::prelude::*;

use crate::atomic_item::claim_of;
use crate::atomic_item::read_effect;
use crate::atomic_item::read_step;
use crate::atomic_item::readable;
use crate::atomic_item::write_step;
use crate::atomic_item::ItemRead;
use crate::atomic_item::ItemState;
use crate::atomic_item::ItemWrite;
use crate::scan::busy;
use crate::tally::lemma_tally_bounds;
use crate::tally::lemma_tally_update;
use crate::tally::tally;

verus! {

/// How many writes it takes until a sequence number comes again.
pub open spec fn seq_period() -> int {
    usize::MAX as int / 2
}

/// The sequence number at which a slot rests after `n` writes.
pub open spec fn seq_after(n: nat) -> usize {
    if n == 0 {
        0
    } else {
        (2 * ((n - 1) % seq_period()) + 2) as usize
    }
}

/// A writer of a slot.
pub struct Writer<T> {
    /// The step that comes next.
    pub op: ItemWrite<T>,
    /// The value that the writer was given.
    pub given: T,
}

/// A reader of a slot.
pub struct Reader<T> {
    /// The step that comes next.
    pub op: ItemRead<T>,
    /// How many writes had been published when the reader loaded the sequence number.
    pub epoch: nat,
}

/// A slot with its writers and readers.
pub struct ItemSystem<T> where T: Clone {
    pub item: ItemState<T>,
    /// The values given to the writers that have published, in order.
    pub history: Seq<T>,
    pub writers: Seq<Writer<T>>,
    pub readers: Seq<Reader<T>>,
}

/// The writer has claimed the slot, and neither published nor given it back.
pub open spec fn inside<T>(op: ItemWrite<T>) -> bool {
    op is Inspect || op is Store || op is Publish || op is Release
}

/// The writer is about to put its value in place, or has done so and not yet published.
pub open spec fn replacing<T>(op: ItemWrite<T>) -> bool {
    op is Store || op is Publish
}

/// The write is over.
pub open spec fn over<T>(op: ItemWrite<T>) -> bool {
    op is Done || op is Refused
}

impl<T> ItemSystem<T> where T: Clone {
    /// A fresh slot that nobody has come to yet.
    pub open spec fn start(self) -> bool {
        &&& self.item.value is None
        &&& self.item.seq == 0
        &&& self.item.readers == 0
        &&& self.history.len() == 0
        &&& self.readers.len() <= usize::MAX
        &&& forall|i: int| 0 <= i < self.writers.len() ==> (#[trigger] self.writers[i]).op is Done
        &&& forall|j: int| 0 <= j < self.readers.len() ==> (#[trigger] self.readers[j]).op is Done
    }

    /// The system once writer `i` has moved on and left the slot as `item`.
    pub open spec fn writer_moves(self, i: int, writer: Writer<T>, item: ItemState<T>) -> Self {
        ItemSystem { item, writers: self.writers.update(i, writer), ..self }
    }

    /// The system once reader `j` has moved on and left the slot as `item`.
    pub open spec fn reader_moves(self, j: int, reader: Reader<T>, item: ItemState<T>) -> Self {
        ItemSystem { item, readers: self.readers.update(j, reader), ..self }
    }

    /// Writer `i` takes its next step. A writer whose write is over stays away, or begins another
    /// write with whatever value it is given.
    pub open spec fn writer_step(self, next: Self, i: int) -> bool {
        let Writer { op, given } = self.writers[i];
        &&& 0 <= i < self.writers.len()
        &&& if over(op) {
            let writer = next.writers[i];
            &&& writer.op is Done || writer.op == (ItemWrite::Load { value: writer.given })
            &&& next == self.writer_moves(i, writer, self.item)
        } else {
            let (op2, item2) = write_step(op, self.item);
            let moved = self.writer_moves(i, Writer { op: op2, given }, item2);
            next == if op is Publish {
                ItemSystem { history: self.history.push(given), ..moved }
            } else {
                moved
            }
        }
    }

    /// Reader `j` takes its next step. A reader whose read is over stays away, or begins another.
    pub open spec fn reader_step(self, next: Self, j: int) -> bool {
        let Reader { op, epoch } = self.readers[j];
        let op2 = next.readers[j].op;
        &&& 0 <= j < self.readers.len()
        &&& if op is Done {
            op2 is Done || op2 is Enter
        } else {
            read_step(op, self.item, op2)
        }
        &&& next == self.reader_moves(
            j,
            Reader {
                op: op2,
                epoch: if op is Load {
                    self.history.len()
                } else if op is Done {
                    next.readers[j].epoch
                } else {
                    epoch
                },
            },
            read_effect(op, self.item),
        )
    }

    /// Some writer or reader takes its next step.
    pub open spec fn step(self, next: Self) -> bool {
        ||| exists|i: int| self.writer_step(next, i)
        ||| exists|j: int| self.reader_step(next, j)
    }

    /// For each reader, whether it has marked its presence.
    pub open spec fn marks(self) -> Seq<bool> {
        self.readers.map_values(|reader: Reader<T>| reader.op.present())
    }

    /// Some writer is inside.
    pub open spec fn someone_inside(self) -> bool {
        exists|i: int| 0 <= i < self.writers.len() && inside((#[trigger] self.writers[i]).op)
    }

    /// Some reader has marked its presence.
    pub open spec fn someone_present(self) -> bool {
        exists|j: int| 0 <= j < self.readers.len() && (#[trigger] self.readers[j]).op.present()
    }

    /// Some writer is replacing the value.
    pub open spec fn someone_replacing(self) -> bool {
        exists|i: int| 0 <= i < self.writers.len() && replacing((#[trigger] self.writers[i]).op)
    }

    /// Some writer has put its value in place and not yet published.
    pub open spec fn someone_stored(self) -> bool {
        exists|i: int| 0 <= i < self.writers.len() && (#[trigger] self.writers[i]).op is Publish
    }

    /// The writer is where it can be, given the slot.
    pub open spec fn writer_ok(self, writer: Writer<T>) -> bool {
        let Writer { op, given } = writer;
        let n = self.history.len();
        match op {
            ItemWrite::Load { value } => value == given,
            ItemWrite::Claim { value, seen, claim } => {
                value == given && !busy(seen) && claim == claim_of(seen)
            },
            ItemWrite::Inspect { value, seen } => value == given && seen == seq_after(n),
            ItemWrite::Store { value, drop_old } => value == given && drop_old == (n > 0),
            ItemWrite::Publish => self.item.value == Some(given),
            ItemWrite::Release { value, seen } => value == given && seen == seq_after(n),
            ItemWrite::Refused { value } => value == given,
            ItemWrite::Done => true,
        }
    }

    /// The reader is where it can be, given the slot.
    pub open spec fn reader_ok(self, reader: Reader<T>) -> bool {
        let Reader { op, epoch } = reader;
        let n = self.history.len();
        match op {
            ItemRead::Copy { seen } => {
                0 < epoch == n && seen == seq_after(n) && !self.someone_replacing()
            },
            ItemRead::Validate { seen, copy } => {
                &&& 0 < epoch == n
                &&& seen == seq_after(n)
                &&& !self.someone_replacing()
                &&& strictly_cloned(self.history.last(), copy)
            },
            _ => true,
        }
    }

    /// What holds of every state that the system can reach.
    pub open spec fn inv(self) -> bool {
        let n = self.history.len();
        // The slot rests at the number of the last write while no writer is inside, and is claimed
        // from there otherwise.
        &&& self.item.seq == if self.someone_inside() {
            claim_of(seq_after(n))
        } else {
            seq_after(n)
        }
        &&& forall|i: int, k: int|
            0 <= i < self.writers.len() && 0 <= k < self.writers.len() && inside(
                (#[trigger] self.writers[i]).op,
            ) && inside((#[trigger] self.writers[k]).op) ==> i == k
        // The slot tells how many readers have marked their presence.
        &&& self.readers.len() <= usize::MAX
        &&& self.item.readers == tally(self.marks())
        // Until a writer puts its own in place, the value in place is the last one published.
        &&& !self.someone_stored() ==> self.item.value == (if n == 0 {
            None
        } else {
            Some(self.history.last())
        })
        &&& forall|i: int|
            0 <= i < self.writers.len() ==> self.writer_ok(#[trigger] self.writers[i])
        &&& forall|j: int|
            0 <= j < self.readers.len() ==> self.reader_ok(#[trigger] self.readers[j])
    }
}

/// Every resting number is even and can be claimed; claiming and publishing moves on to the next.
proof fn lemma_seq_after(n: nat)
    ensures
        !busy(seq_after(n)),
        seq_after(n) <= usize::MAX - 1,
        seq_after(n) == 0 <==> n == 0,
        busy(claim_of(seq_after(n))),
        claim_of(seq_after(n)) < usize::MAX,
        claim_of(seq_after(n)) + 1 == seq_after(n + 1),
{
    let p = seq_period();
    assert(usize::MAX % 2 == 1);
    if n > 0 {
        let k = (n - 1) % p;
        lemma_mod_bound(n - 1, p);
        if k == p - 1 {
            lemma_mod_add_multiples_vanish(0, p);
            lemma_add_mod_noop(n - 1, 1, p);
            lemma_small_mod(1, p as nat);
            assert((k + 1) % p == 0);
            assert(n as int % p == 0);
        } else {
            lemma_add_mod_noop(n - 1, 1, p);
            lemma_small_mod(1, p as nat);
            lemma_small_mod((k + 1) as nat, p as nat);
        }
    } else {
        lemma_small_mod(0, p as nat);
    }
}

/// The slot tells of no reader exactly if no reader has marked its presence.
proof fn lemma_present<T: Clone>(s: ItemSystem<T>)
    requires
        s.inv(),
    ensures
        s.item.readers == 0 <==> !s.someone_present(),
{
    lemma_tally_bounds(s.marks());
    if s.someone_present() {
        let j = choose|j: int|
            0 <= j < s.readers.len() && (#[trigger] s.readers[j]).op.present();
        assert(s.marks()[j]);
    }
    if !s.someone_present() {
        assert forall|j: int| 0 <= j < s.marks().len() implies !#[trigger] s.marks()[j] by {
            assert(!s.readers[j].op.present());
        }
    }
}

/// A writer that has put its value in place is replacing the value, and is inside.
proof fn lemma_stored<T: Clone>(s: ItemSystem<T>)
    ensures
        s.someone_stored() ==> s.someone_replacing(),
        s.someone_replacing() ==> s.someone_inside(),
{
    if s.someone_stored() {
        let k = choose|k: int| 0 <= k < s.writers.len() && (#[trigger] s.writers[k]).op is Publish;
        assert(replacing(s.writers[k].op));
    }
    if s.someone_replacing() {
        let k = choose|k: int| 0 <= k < s.writers.len() && replacing((#[trigger] s.writers[k]).op);
        assert(inside(s.writers[k].op));
    }
}

/// A fresh slot is in order.
pub proof fn law_item_start<T: Clone>(s: ItemSystem<T>)
    requires
        s.start(),
    ensures
        s.inv(),
{
    lemma_tally_bounds(s.marks());
    assert forall|j: int| 0 <= j < s.marks().len() implies !#[trigger] s.marks()[j] by {
        assert(s.readers[j].op is Done);
    }
}

/// Whatever step is taken next, the slot stays in order.
pub proof fn law_item_step<T: Clone>(s: ItemSystem<T>, next: ItemSystem<T>)
    requires
        s.inv(),
        s.step(next),
    ensures
        next.inv(),
{
    if exists|i: int| s.writer_step(next, i) {
        let i = choose|i: int| s.writer_step(next, i);
        lemma_writer_step(s, next, i);
    } else {
        let j = choose|j: int| s.reader_step(next, j);
        lemma_reader_step(s, next, j);
    }
}

proof fn lemma_writer_step<T: Clone>(s: ItemSystem<T>, next: ItemSystem<T>, i: int)
    requires
        s.inv(),
        s.writer_step(next, i),
    ensures
        next.inv(),
{
    let n = s.history.len();
    lemma_seq_after(n);
    lemma_seq_after(n + 1);
    lemma_present(s);
    assert(s.writer_ok(s.writers[i]));
    assert(forall|k: int|
        0 <= k < s.writers.len() && k != i ==> #[trigger] next.writers[k] == s.writers[k]);
    assert(next.readers == s.readers);
    if s.someone_inside() {
        let k = choose|k: int| 0 <= k < s.writers.len() && inside((#[trigger] s.writers[k]).op);
        assert(k != i ==> inside(next.writers[k].op));
    }
    if s.someone_replacing() {
        let k = choose|k: int| 0 <= k < s.writers.len() && replacing((#[trigger] s.writers[k]).op);
        assert(inside(s.writers[k].op));
        assert(k != i ==> replacing(next.writers[k].op));
    }
    if s.someone_stored() {
        let k = choose|k: int| 0 <= k < s.writers.len() && (#[trigger] s.writers[k]).op is Publish;
        assert(inside(s.writers[k].op));
        assert(k != i ==> next.writers[k].op is Publish);
    }
    assert(inside(s.writers[i].op) ==> s.someone_inside());
    assert(replacing(s.writers[i].op) ==> s.someone_replacing());
    assert(inside(next.writers[i].op) ==> next.someone_inside());
    assert(replacing(next.writers[i].op) ==> next.someone_replacing());
    assert(next.writers[i].op is Publish ==> next.someone_stored());
    assert forall|k: int| 0 <= k < next.writers.len() implies next.writer_ok(
        #[trigger] next.writers[k],
    ) by {
        assert(s.writer_ok(s.writers[k]));
    }
    assert forall|j: int| 0 <= j < next.readers.len() implies next.reader_ok(
        #[trigger] next.readers[j],
    ) by {
        assert(s.reader_ok(s.readers[j]));
        assert(s.readers[j].op.present() ==> s.someone_present());
    }
}

proof fn lemma_reader_step<T: Clone>(s: ItemSystem<T>, next: ItemSystem<T>, j: int)
    requires
        s.inv(),
        s.reader_step(next, j),
    ensures
        next.inv(),
{
    let n = s.history.len();
    lemma_seq_after(n);
    lemma_tally_bounds(next.marks());
    lemma_tally_update(s.marks(), j, next.readers[j].op.present());
    assert(next.marks() =~= s.marks().update(j, next.readers[j].op.present()));
    assert(next.writers == s.writers);
    assert(next.someone_inside() == s.someone_inside());
    assert(next.someone_replacing() == s.someone_replacing());
    assert(next.someone_stored() == s.someone_stored());
    lemma_stored(s);
    assert forall|k: int| 0 <= k < next.writers.len() implies next.writer_ok(
        #[trigger] next.writers[k],
    ) by {
        assert(s.writer_ok(s.writers[k]));
    }
    assert forall|k: int| 0 <= k < next.readers.len() implies next.reader_ok(
        #[trigger] next.readers[k],
    ) by {
        assert(s.reader_ok(s.readers[k]));
        assert(k != j ==> next.readers[k] == s.readers[k]);
    }
}

/// At most one writer is inside, and the sequence number is odd exactly while one is.
pub proof fn law_one_writer_inside<T: Clone>(s: ItemSystem<T>, i: int, k: int)
    requires
        s.inv(),
        0 <= i < s.writers.len(),
        0 <= k < s.writers.len(),
    ensures
        inside(s.writers[i].op) && inside(s.writers[k].op) ==> i == k,
        busy(s.item.seq) <==> s.someone_inside(),
{
    lemma_seq_after(s.history.len());
}

/// While a reader copies the value, no writer is about to drop it or to put another in its place.
/// So a value that is being replaced is never looked at, and whatever step is taken next, a value
/// that is being looked at stays in place.
pub proof fn law_no_look_while_replacing<T: Clone>(
    s: ItemSystem<T>,
    next: ItemSystem<T>,
    i: int,
    j: int,
)
    requires
        s.inv(),
        s.step(next),
        0 <= i < s.writers.len(),
        0 <= j < s.readers.len(),
        s.readers[j].op is Copy,
    ensures
        !replacing(s.writers[i].op),
        s.history.len() > 0,
        s.item.value == Some(s.history.last()),
        next.item.value == s.item.value,
{
    lemma_stored(s);
    assert(s.reader_ok(s.readers[j]));
    assert(replacing(s.writers[i].op) ==> s.someone_replacing());
    if exists|k: int| s.writer_step(next, k) {
        let k = choose|k: int| s.writer_step(next, k);
        assert(replacing(s.writers[k].op) ==> s.someone_replacing());
    }
}

/// A copy that a reader keeps is a copy of the value in place, which was there when the read began:
/// no write has been published since, and no writer is inside.
pub proof fn law_kept_copy<T: Clone>(s: ItemSystem<T>, next: ItemSystem<T>, j: int, result: T)
    requires
        s.inv(),
        s.reader_step(next, j),
        s.readers[j].op is Validate,
        next.readers[j].op == (ItemRead::Leave { result: Some(result) }),
    ensures
        0 < s.readers[j].epoch == s.history.len(),
        !s.someone_inside(),
        s.item.value == Some(s.history.last()),
        strictly_cloned(s.history.last(), result),
{
    lemma_seq_after(s.history.len());
    lemma_stored(s);
    assert(s.reader_ok(s.readers[j]));
}

/// A reader keeps its copy unless a writer is inside, and keeps nothing if one is.
pub proof fn law_copy_kept_or_not<T: Clone>(s: ItemSystem<T>, next: ItemSystem<T>, j: int)
    requires
        s.inv(),
        s.reader_step(next, j),
        s.readers[j].op is Validate,
    ensures
        next.readers[j].op == (ItemRead::<T>::Leave {
            result: if s.someone_inside() {
                None
            } else {
                Some(s.readers[j].op->copy)
            },
        }),
{
    lemma_seq_after(s.history.len());
    assert(s.reader_ok(s.readers[j]));
}

/// A writer that finds another inside is refused. One that has claimed the slot gives it back if a
/// reader is present, and puts its value in place if none is.
pub proof fn law_refusal<T: Clone>(s: ItemSystem<T>, next: ItemSystem<T>, i: int)
    requires
        s.inv(),
        s.writer_step(next, i),
    ensures
        s.writers[i].op is Load ==> (next.writers[i].op is Refused <==> s.someone_inside()),
        s.writers[i].op is Inspect ==> (next.writers[i].op is Release <==> s.someone_present()),
        s.writers[i].op is Inspect ==> (next.writers[i].op is Store <==> !s.someone_present()),
{
    lemma_seq_after(s.history.len());
    lemma_present(s);
}

/// A writer that is refused hands back the value it was given.
pub proof fn law_refused_value_comes_back<T: Clone>(s: ItemSystem<T>, i: int)
    requires
        s.inv(),
        0 <= i < s.writers.len(),
    ensures
        s.writers[i].op matches ItemWrite::Refused { value } ==> value == s.writers[i].given,
{
    assert(s.writer_ok(s.writers[i]));
}

/// While no writer is inside, the value in place is the one that was published last.
pub proof fn law_value_at_rest<T: Clone>(s: ItemSystem<T>)
    requires
        s.inv(),
        !s.someone_inside(),
    ensures
        s.item.seq == seq_after(s.history.len()),
        s.item.seq == 0 <==> s.history.len() == 0,
        s.history.len() == 0 ==> s.item.value is None,
        s.history.len() > 0 ==> s.item.value == Some(s.history.last()),
{
    lemma_seq_after(s.history.len());
    lemma_stored(s);
}

/// Every value that is replaced has been dropped: a writer that puts its value in place drops the
/// one that is there exactly if there is one.
pub proof fn law_replaced_value_is_dropped<T: Clone>(s: ItemSystem<T>, i: int)
    requires
        s.inv(),
        0 <= i < s.writers.len(),
    ensures
        s.writers[i].op matches ItemWrite::Store { drop_old, .. } ==> drop_old
            == s.item.value is Some,
{
    assert(s.writer_ok(s.writers[i]));
    if s.writers[i].op is Store && s.someone_stored() {
        let k = choose|k: int| 0 <= k < s.writers.len() && (#[trigger] s.writers[k]).op is Publish;
        assert(inside(s.writers[i].op) && inside(s.writers[k].op));
    }
}

/// A write whose steps are not interrupted by those of another does to the slot what
/// [`AtomicItem::try_write`](crate::AtomicItem::try_write) does: it puts the value in place if nobody
/// is inside, and is refused otherwise.
pub proof fn law_uninterrupted_write<T: Clone>(item: ItemState<T>, value: T)
    ensures
        ({
            let (op1, item1) = write_step(ItemWrite::Load { value }, item);
            let (op2, item2) = write_step(op1, item1);
            let (op3, item3) = write_step(op2, item2);
            let (op4, item4) = write_step(op3, item3);
            let (op5, item5) = write_step(op4, item4);
            if item.admits() {
                op5 is Done && item5 == item.written(value)
            } else {
                op5 == (ItemWrite::Refused { value }) && item5 == item
            }
        }),
{
}

/// A read whose steps are not interrupted by those of another finds what
/// [`AtomicItem::try_read`](crate::AtomicItem::try_read) finds, a copy of the value in place if the slot
/// can be read and nothing otherwise, and leaves the slot as it was.
pub proof fn law_uninterrupted_read<T: Clone>(item: ItemState<T>, copy: T)
    requires
        strictly_cloned(item.value->0, copy),
    ensures
        ({
            let inside = read_effect(ItemRead::Enter, item);
            let found = if readable(item.seq) {
                Some(copy)
            } else {
                None
            };
            let copied = ItemRead::Validate { seen: item.seq, copy };
            let leave = ItemRead::Leave { result: found };
            &&& read_step(ItemRead::Enter, item, ItemRead::<T>::Load)
            &&& if readable(item.seq) {
                &&& read_step(ItemRead::<T>::Load, inside, ItemRead::Copy { seen: item.seq })
                &&& read_step(ItemRead::Copy { seen: item.seq }, inside, copied)
                &&& read_step(copied, inside, leave)
            } else {
                read_step(ItemRead::<T>::Load, inside, leave)
            }
            &&& read_step(leave, inside, ItemRead::Done { result: found })
            &&& read_effect(leave, inside) == item
        }),
{
}

} // verus!
