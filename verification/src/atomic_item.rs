//! One slot for one value, guarded by a sequence number.
//!
//! The sequence number is even while the slot is at rest and odd while a writer is inside. It is
//! zero until the first value is in place. A writer claims the slot by moving an even number to an
//! odd one, and puts its value in place only if no reader is inside. It publishes by moving the
//! number on to the next even one. A reader marks its presence, takes the number, copies the value,
//! and keeps the copy only if the number is still the same.
//!
//! [`ItemWrite`] and [`ItemRead`] are the two procedures as a sequence of single steps, each of
//! which touches shared memory once. [`AtomicItem::try_write`] and [`AtomicItem::try_read`] run
//! them without interruption.
use std::mem::ManuallyDrop;
use std::ops::Deref;

use vstd::pervasive::*;
use vstd::prelude::*;

use crate::scan::busy;

verus! {

/// A value is in place and no writer is inside.
pub open spec fn readable(seq: usize) -> bool {
    seq != 0 && !busy(seq)
}

/// The odd number by which a slot that rests at `seq` is claimed. Zero is left out when the
/// numbers wrap around, since it would say that no value is in place.
pub open spec fn claim_of(seq: usize) -> usize {
    if seq == usize::MAX - 1 {
        1
    } else {
        (seq + 1) as usize
    }
}

/// The number at which a slot rests after a write that found it at rest at `seq`.
pub open spec fn next_rest(seq: usize) -> usize {
    (claim_of(seq) + 1) as usize
}

/// What an [`AtomicItem`] stands for.
pub struct ItemState<T> {
    /// The value in place, if any.
    pub value: Option<T>,
    /// The sequence number.
    pub seq: usize,
    /// How many readers are inside.
    pub readers: usize,
    /// How many values have been dropped to make room for another, modulo the range of `usize`.
    pub drop_count: usize,
}

impl<T> ItemState<T> {
    /// What holds of a slot between steps: a readable number stands for a value in place, the
    /// number zero for none, and the largest odd number is not in use.
    pub open spec fn wf(self) -> bool {
        &&& readable(self.seq) ==> self.value is Some
        &&& self.seq == 0 ==> self.value is None
        &&& self.seq < usize::MAX
    }

    /// A write is accepted: nobody is inside.
    pub open spec fn admits(self) -> bool {
        !busy(self.seq) && self.readers == 0
    }

    /// A slot with no value in place.
    pub open spec fn fresh() -> Self {
        ItemState { value: None, seq: 0, readers: 0, drop_count: 0 }
    }

    /// The slot with `value` put in place.
    pub open spec fn filled(self, value: T, drop_old: bool) -> Self {
        ItemState {
            value: Some(value),
            drop_count: if drop_old {
                self.drop_count.wrapping_add(1)
            } else {
                self.drop_count
            },
            ..self
        }
    }

    /// The slot after an uninterrupted write of `value` that was accepted.
    pub open spec fn written(self, value: T) -> Self {
        ItemState { seq: next_rest(self.seq), ..self.filled(value, self.seq != 0) }
    }
}

/// One slot for one value.
///
/// The value in place is dropped when another takes its place, and not when the slot itself is
/// dropped.
#[derive(Debug)]
pub struct AtomicItem<T> where T: Clone {
    /// The value in place, if any.
    pub value: Option<ManuallyDrop<T>>,
    /// The sequence number: odd while a writer is inside, above zero once a value is in place.
    pub seq: usize,
    /// How many readers are inside.
    pub readers: usize,
    /// How many values have been dropped to make room for another, modulo the range of `usize`.
    pub drop_count: usize,
}

impl<T> View for AtomicItem<T> where T: Clone {
    type V = ItemState<T>;

    open spec fn view(&self) -> ItemState<T> {
        ItemState {
            value: match self.value {
                Some(value) => Some(value@),
                None => None,
            },
            seq: self.seq,
            readers: self.readers,
            drop_count: self.drop_count,
        }
    }
}

/// A write to an [`AtomicItem`], by the step that comes next.
pub enum ItemWrite<T> {
    /// Load the sequence number, then go on with [`ItemWrite::after_load`].
    Load { value: T },
    /// Exchange the sequence number for `claim` if it is still `seen`, then go on with
    /// [`ItemWrite::after_exchange`].
    Claim { value: T, seen: usize, claim: usize },
    /// Load the number of readers inside, then go on with [`ItemWrite::after_inspect`].
    Inspect { value: T, seen: usize },
    /// Put the value in place, after dropping the one that is there if `drop_old`; then publish.
    Store { value: T, drop_old: bool },
    /// Add one to the sequence number; the write is then done.
    Publish,
    /// Store `seen` as the sequence number again; the write is then refused.
    Release { value: T, seen: usize },
    /// The value is in place.
    Done,
    /// Somebody was inside, or another writer got there first: the value is handed back.
    Refused { value: T },
}

/// A read of an [`AtomicItem`], by the step that comes next.
pub enum ItemRead<T> {
    /// Add one to the number of readers inside, then load the sequence number.
    Enter,
    /// Load the sequence number, then go on with [`ItemRead::after_load`].
    Load,
    /// Copy the value, then validate the copy.
    Copy { seen: usize },
    /// Load the sequence number again, then go on with [`ItemRead::after_reload`].
    Validate { seen: usize, copy: T },
    /// Take one off the number of readers inside; the read is then over.
    Leave { result: Option<T> },
    /// The read is over.
    Done { result: Option<T> },
}

/// The next step of a write that is not over: where the write stands then, and the slot.
pub open spec fn write_step<T>(op: ItemWrite<T>, item: ItemState<T>) -> (
    ItemWrite<T>,
    ItemState<T>,
) {
    match op {
        ItemWrite::Load { value } => (ItemWrite::loaded(value, item.seq), item),
        ItemWrite::Claim { value, seen, claim } => {
            let won = item.seq == seen;
            let seq = if won {
                claim
            } else {
                item.seq
            };
            (ItemWrite::exchanged(value, seen, won), ItemState { seq, ..item })
        },
        ItemWrite::Inspect { value, seen } => {
            (ItemWrite::inspected(value, seen, item.readers), item)
        },
        ItemWrite::Store { value, drop_old } => (ItemWrite::Publish, item.filled(value, drop_old)),
        ItemWrite::Publish => {
            (ItemWrite::Done, ItemState { seq: item.seq.wrapping_add(1), ..item })
        },
        ItemWrite::Release { value, seen } => {
            (ItemWrite::Refused { value }, ItemState { seq: seen, ..item })
        },
        _ => (op, item),
    }
}

/// The slot after the next step of a read.
pub open spec fn read_effect<T>(op: ItemRead<T>, item: ItemState<T>) -> ItemState<T> {
    match op {
        ItemRead::Enter => ItemState { readers: item.readers.wrapping_add(1), ..item },
        ItemRead::Leave { .. } => ItemState { readers: item.readers.wrapping_sub(1), ..item },
        _ => item,
    }
}

/// The next step of a read that is not over leads from `op` to `next`.
///
/// A copy takes a while. It is a copy of the value in place because no value is put in place
/// meanwhile: that is what the presence of the reader is for.
pub open spec fn read_step<T: Clone>(
    op: ItemRead<T>,
    item: ItemState<T>,
    next: ItemRead<T>,
) -> bool {
    match op {
        ItemRead::Enter => next == ItemRead::<T>::Load,
        ItemRead::Load => next == ItemRead::<T>::loaded(item.seq),
        ItemRead::Copy { seen } => {
            &&& next is Validate
            &&& next->Validate_seen == seen
            &&& strictly_cloned(item.value->0, next->copy)
        },
        ItemRead::Validate { seen, copy } => next == ItemRead::reloaded(seen, copy, item.seq),
        ItemRead::Leave { result } => next == (ItemRead::Done { result }),
        ItemRead::Done { .. } => false,
    }
}

impl<T> ItemWrite<T> {
    /// What follows when the sequence number was `seq`.
    pub open spec fn loaded(value: T, seq: usize) -> Self {
        if busy(seq) {
            ItemWrite::Refused { value }
        } else {
            ItemWrite::Claim { value, seen: seq, claim: claim_of(seq) }
        }
    }

    /// What follows when the exchange of the number `seen` was won or lost.
    pub open spec fn exchanged(value: T, seen: usize, won: bool) -> Self {
        if won {
            ItemWrite::Inspect { value, seen }
        } else {
            ItemWrite::Refused { value }
        }
    }

    /// What follows when `readers` readers were inside.
    pub open spec fn inspected(value: T, seen: usize, readers: usize) -> Self {
        if readers == 0 {
            ItemWrite::Store { value, drop_old: seen != 0 }
        } else {
            ItemWrite::Release { value, seen }
        }
    }

    /// The write of `value`, not yet begun.
    pub fn new(value: T) -> (op: Self)
        ensures
            op == (ItemWrite::Load { value }),
    {
        ItemWrite::Load { value }
    }

    /// Decides on the sequence number that was loaded.
    pub fn after_load(value: T, seq: usize) -> (op: Self)
        ensures
            op == Self::loaded(value, seq),
            seq % 2 == 1 ==> op == (ItemWrite::Refused { value }),
            seq % 2 == 0 ==> op == (ItemWrite::Claim {
                value,
                seen: seq,
                claim: if seq == usize::MAX - 1 {
                    1
                } else {
                    (seq + 1) as usize
                },
            }),
    {
        assert(seq & 1 == seq % 2) by (bit_vector);
        if seq & 1 != 0 {
            return ItemWrite::Refused { value };
        }
        let claim: usize = if seq != usize::MAX - 1 {
            seq + 1
        } else {
            1
        };
        ItemWrite::Claim { value, seen: seq, claim }
    }

    /// Decides on the outcome of the exchange.
    pub fn after_exchange(value: T, seen: usize, won: bool) -> (op: Self)
        ensures
            op == Self::exchanged(value, seen, won),
            won ==> op == (ItemWrite::Inspect { value, seen }),
            !won ==> op == (ItemWrite::Refused { value }),
    {
        if !won {
            return ItemWrite::Refused { value };
        }
        ItemWrite::Inspect { value, seen }
    }

    /// Decides on the number of readers inside.
    pub fn after_inspect(value: T, seen: usize, readers: usize) -> (op: Self)
        ensures
            op == Self::inspected(value, seen, readers),
            readers == 0 ==> op == (ItemWrite::Store { value, drop_old: seen != 0 }),
            readers != 0 ==> op == (ItemWrite::Release { value, seen }),
    {
        if readers != 0 {
            return ItemWrite::Release { value, seen };
        }
        ItemWrite::Store { value, drop_old: seen != 0 }
    }
}

impl<T> ItemRead<T> {
    /// What follows when the sequence number was `seq`.
    pub open spec fn loaded(seq: usize) -> Self {
        if readable(seq) {
            ItemRead::Copy { seen: seq }
        } else {
            ItemRead::Leave { result: None }
        }
    }

    /// What follows when the sequence number was `seen` before the copy and `seq` after it.
    pub open spec fn reloaded(seen: usize, copy: T, seq: usize) -> Self {
        ItemRead::Leave {
            result: if seen == seq {
                Some(copy)
            } else {
                None
            },
        }
    }

    /// The reader has marked its presence and not yet taken it back.
    pub open spec fn present(self) -> bool {
        !(self is Enter || self is Done)
    }

    /// A read, not yet begun.
    pub fn new() -> (op: Self)
        ensures
            op == ItemRead::<T>::Enter,
    {
        ItemRead::Enter
    }

    /// Decides on the sequence number that was loaded.
    pub fn after_load(seq: usize) -> (op: Self)
        ensures
            op == Self::loaded(seq),
            seq == 0 || seq % 2 == 1 ==> op == (ItemRead::<T>::Leave { result: None }),
            seq != 0 && seq % 2 == 0 ==> op == (ItemRead::<T>::Copy { seen: seq }),
    {
        assert(seq & 1 == seq % 2) by (bit_vector);
        if seq & 1 != 0 || seq == 0 {
            return ItemRead::Leave { result: None };
        }
        ItemRead::Copy { seen: seq }
    }

    /// Decides whether the copy may be kept.
    pub fn after_reload(seen: usize, copy: T, seq: usize) -> (op: Self)
        ensures
            op == Self::reloaded(seen, copy, seq),
            seen == seq ==> op == (ItemRead::Leave { result: Some(copy) }),
            seen != seq ==> op == (ItemRead::<T>::Leave { result: None }),
    {
        if seen != seq {
            return ItemRead::Leave { result: None };
        }
        ItemRead::Leave { result: Some(copy) }
    }
}

impl<T> AtomicItem<T> where T: Clone {
    /// A slot with no value in place.
    pub fn new() -> (item: Self)
        ensures
            item@ == ItemState::<T>::fresh(),
            item.value is None,
            item.seq == 0,
            item.readers == 0,
            item.drop_count == 0,
    {
        Self::default()
    }

    /// The step that loads the sequence number.
    pub fn load_seq(&self) -> (seq: usize)
        ensures
            seq == self@.seq,
            seq == self.seq,
    {
        self.seq
    }

    /// The step that exchanges the sequence number for `claim` if it is `seen`, and says whether
    /// it was.
    pub fn exchange_seq(&mut self, seen: usize, claim: usize) -> (won: bool)
        ensures
            won == (old(self)@.seq == seen),
            final(self)@ == (ItemState {
                seq: if won {
                    claim
                } else {
                    old(self)@.seq
                },
                ..old(self)@
            }),
            won <==> old(self).seq == seen,
            final(self).seq == (if won {
                claim
            } else {
                old(self).seq
            }),
            final(self).value == old(self).value,
            final(self).readers == old(self).readers,
            final(self).drop_count == old(self).drop_count,
    {
        if self.seq == seen {
            self.seq = claim;
            true
        } else {
            false
        }
    }

    /// The step that loads the number of readers inside.
    pub fn count_readers(&self) -> (readers: usize)
        ensures
            readers == self@.readers,
            readers == self.readers,
    {
        self.readers
    }

    /// The step that puts a value in place. The replaced value is dropped if `drop_old`, and leaked
    /// otherwise. The contract says only what the slot holds, which dropping a value does not change.
    pub fn store_value(&mut self, value: T, drop_old: bool)
        ensures
            final(self)@ == old(self)@.filled(value, drop_old),
            final(self).value is Some,
            final(self).value->0@ == value,
            final(self).seq == old(self).seq,
            final(self).readers == old(self).readers,
            final(self).drop_count == (if drop_old {
                old(self).drop_count.wrapping_add(1)
            } else {
                old(self).drop_count
            }),
    {
        let replaced = self.value.take();
        if drop_old {
            self.drop_count = self.drop_count.wrapping_add(1);
            if let Some(replaced) = replaced {
                let _dropped: T = ManuallyDrop::into_inner(replaced);
            }
        }
        self.value = Some(ManuallyDrop::new(value));
    }

    /// The step that adds one to the sequence number.
    pub fn publish(&mut self)
        ensures
            final(self)@ == (ItemState { seq: old(self)@.seq.wrapping_add(1), ..old(self)@ }),
            *final(self) == (AtomicItem { seq: old(self).seq.wrapping_add(1), ..*old(self) }),
    {
        self.seq = self.seq.wrapping_add(1);
    }

    /// The step that gives a claimed slot back.
    pub fn release(&mut self, seen: usize)
        ensures
            final(self)@ == (ItemState { seq: seen, ..old(self)@ }),
            *final(self) == (AtomicItem { seq: seen, ..*old(self) }),
    {
        self.seq = seen;
    }

    /// The step by which a reader marks its presence.
    pub fn enter(&mut self)
        ensures
            final(self)@ == read_effect(ItemRead::Enter, old(self)@),
            *final(self) == (AtomicItem {
                readers: old(self).readers.wrapping_add(1),
                ..*old(self)
            }),
    {
        self.readers = self.readers.wrapping_add(1);
    }

    /// The step that copies the value in place.
    pub fn copy_value(&self) -> (copy: T)
        requires
            self@.value is Some,
        ensures
            strictly_cloned(self@.value->0, copy),
            self.value is Some,
            strictly_cloned(self.value->0@, copy),
    {
        match &self.value {
            Some(value) => value.deref().clone(),
            None => vstd::pervasive::unreached(),
        }
    }

    /// The step by which a reader takes back the mark of its presence.
    pub fn leave(&mut self)
        ensures
            final(self)@ == read_effect(ItemRead::Leave { result: None }, old(self)@),
            *final(self) == (AtomicItem {
                readers: old(self).readers.wrapping_sub(1),
                ..*old(self)
            }),
    {
        self.readers = self.readers.wrapping_sub(1);
    }

    /// Tries to write the value. Hands it back if somebody is inside.
    pub fn try_write(&mut self, value: T) -> (result: Result<(), T>)
        ensures
            result == (if old(self)@.admits() {
                Ok::<(), T>(())
            } else {
                Err::<(), T>(value)
            }),
            final(self)@ == (if old(self)@.admits() {
                old(self)@.written(value)
            } else {
                old(self)@
            }),
            old(self)@.admits() || old(self)@.wf() ==> final(self)@.wf(),
            result is Ok <==> old(self).seq % 2 == 0 && old(self).readers == 0,
            result is Err ==> result->Err_0 == value && *final(self) == *old(self),
            result is Ok ==> {
                &&& final(self).value is Some
                &&& final(self).value->0@ == value
                &&& final(self).seq == (if old(self).seq == usize::MAX - 1 {
                    2
                } else {
                    old(self).seq + 2
                })
                &&& final(self).readers == 0
                &&& final(self).drop_count == (if old(self).seq == 0 {
                    old(self).drop_count
                } else {
                    old(self).drop_count.wrapping_add(1)
                })
            },
    {
        let mut op: ItemWrite<T> = ItemWrite::new(value);
        let ghost before = self@;
        let ghost claimed = ItemState { seq: claim_of(before.seq), ..before };
        loop
            invariant
                old(self)@ == before,
                claimed == (ItemState { seq: claim_of(before.seq), ..before }),
                !(op is Publish || op is Done) ==> self.value == old(self).value,
                match op {
                    ItemWrite::Load { value: v } => v == value && self@ == before,
                    ItemWrite::Claim { value: v, seen, claim } => {
                        &&& v == value
                        &&& self@ == before
                        &&& !busy(before.seq)
                        &&& seen == before.seq
                        &&& claim == claimed.seq
                    },
                    ItemWrite::Inspect { value: v, seen } => {
                        v == value && !busy(before.seq) && seen == before.seq && self@ == claimed
                    },
                    ItemWrite::Store { value: v, drop_old } => {
                        &&& v == value
                        &&& before.admits()
                        &&& drop_old == (before.seq != 0)
                        &&& self@ == claimed
                    },
                    ItemWrite::Publish => {
                        before.admits() && self@ == claimed.filled(value, before.seq != 0)
                    },
                    ItemWrite::Release { value: v, seen } => {
                        v == value && !before.admits() && seen == before.seq && self@ == claimed
                    },
                    ItemWrite::Done => before.admits() && self@ == before.written(value),
                    ItemWrite::Refused { value: v } => {
                        v == value && self@ == before && !before.admits()
                    },
                },
            decreases
                (match op {
                    ItemWrite::Load { .. } => 5int,
                    ItemWrite::Claim { .. } => 4,
                    ItemWrite::Inspect { .. } => 3,
                    ItemWrite::Store { .. } => 2,
                    ItemWrite::Publish => 1,
                    ItemWrite::Release { .. } => 1,
                    _ => 0,
                }),
        {
            op = match op {
                ItemWrite::Load { value } => ItemWrite::after_load(value, self.load_seq()),
                ItemWrite::Claim { value, seen, claim } => {
                    let won = self.exchange_seq(seen, claim);
                    ItemWrite::after_exchange(value, seen, won)
                },
                ItemWrite::Inspect { value, seen } => {
                    ItemWrite::after_inspect(value, seen, self.count_readers())
                },
                ItemWrite::Store { value, drop_old } => {
                    self.store_value(value, drop_old);
                    ItemWrite::Publish
                },
                ItemWrite::Publish => {
                    self.publish();
                    ItemWrite::Done
                },
                ItemWrite::Release { value, seen } => {
                    self.release(seen);
                    ItemWrite::Refused { value }
                },
                ItemWrite::Done => {
                    return Ok(());
                },
                ItemWrite::Refused { value } => {
                    return Err(value);
                },
            };
        }
    }

    /// Tries to read the value. There is nothing to read before the first write, nor while a
    /// writer is inside.
    ///
    /// No writer can come in while the slot is borrowed, so the reader need not mark its presence.
    pub fn try_read(&self) -> (result: Option<T>)
        requires
            self@.wf(),
        ensures
            result is Some <==> readable(self@.seq),
            result is Some ==> strictly_cloned(self@.value->0, result->0),
            result is Some <==> self.seq != 0 && self.seq % 2 == 0,
            result is Some ==> self.value is Some && strictly_cloned(self.value->0@, result->0),
    {
        let mut op: ItemRead<T> = ItemRead::new();
        loop
            invariant
                self@.wf(),
                match op {
                    ItemRead::Enter | ItemRead::Load => true,
                    ItemRead::Copy { seen } => readable(self@.seq) && seen == self@.seq,
                    ItemRead::Validate { seen, copy } => {
                        &&& readable(self@.seq)
                        &&& seen == self@.seq
                        &&& strictly_cloned(self@.value->0, copy)
                    },
                    ItemRead::Leave { result } | ItemRead::Done { result } => {
                        &&& result is Some <==> readable(self@.seq)
                        &&& result is Some ==> strictly_cloned(self@.value->0, result->0)
                    },
                },
            decreases
                (match op {
                    ItemRead::Enter => 5int,
                    ItemRead::Load => 4,
                    ItemRead::Copy { .. } => 3,
                    ItemRead::Validate { .. } => 2,
                    ItemRead::Leave { .. } => 1,
                    ItemRead::Done { .. } => 0,
                }),
        {
            op = match op {
                ItemRead::Enter => ItemRead::Load,
                ItemRead::Load => ItemRead::after_load(self.load_seq()),
                ItemRead::Copy { seen } => ItemRead::Validate { seen, copy: self.copy_value() },
                ItemRead::Validate { seen, copy } => {
                    ItemRead::after_reload(seen, copy, self.load_seq())
                },
                ItemRead::Leave { result } => ItemRead::Done { result },
                ItemRead::Done { result } => {
                    return result;
                },
            };
        }
    }
}

/// What a slot stands for is what its fields hold.
pub proof fn law_item_fields<T: Clone>(item: AtomicItem<T>)
    ensures
        item@.value is Some <==> item.value is Some,
        item.value is Some ==> item@.value == Some(item.value->0@),
        item@.seq == item.seq,
        item@.readers == item.readers,
        item@.drop_count == item.drop_count,
{
}

/// A slot is in order exactly if there is a value where an even number above zero says so and none
/// where zero says so, and the largest number is not in use.
pub proof fn law_item_in_order<T>(item: ItemState<T>)
    ensures
        item.wf() <==> {
            &&& item.seq > 0 && item.seq % 2 == 0 ==> item.value is Some
            &&& item.seq == 0 ==> item.value is None
            &&& item.seq != usize::MAX
        },
{
}

/// A slot accepts a write exactly if its number is even and no reader is inside, and can be read
/// exactly if its number is even and above zero.
pub proof fn law_item_numbers<T>(item: ItemState<T>)
    ensures
        item.admits() <==> item.seq % 2 == 0 && item.readers == 0,
        readable(item.seq) <==> item.seq % 2 == 0 && item.seq > 0,
        busy(item.seq) <==> item.seq % 2 == 1,
{
}

/// An accepted write puts its value in place, drops the one that was there if there was one, and
/// moves the number on to the next even one above zero. So the value can be read and the next write
/// is accepted.
pub proof fn law_item_written<T>(item: ItemState<T>, value: T)
    requires
        item.seq % 2 == 0,
        item.readers == 0,
    ensures
        item.written(value).value == Some(value),
        item.written(value).seq == (if item.seq == usize::MAX - 1 {
            2
        } else {
            item.seq + 2
        }),
        item.written(value).readers == 0,
        item.written(value).drop_count == (if item.seq == 0 {
            item.drop_count
        } else {
            item.drop_count.wrapping_add(1)
        }),
        item.written(value).wf(),
        item.written(value).admits(),
        readable(item.written(value).seq),
{
    assert(usize::MAX % 2 == 1);
}

impl<T> Default for AtomicItem<T> where T: Clone {
    fn default() -> (item: Self)
        ensures
            item@ == ItemState::<T>::fresh(),
            item.value is None,
            item.seq == 0,
            item.readers == 0,
            item.drop_count == 0,
    {
        AtomicItem { value: None, seq: 0, readers: 0, drop_count: 0 }
    }
}

} // verus!
