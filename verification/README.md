# rbuf

Ring buffers for a value that is written often and read often, written in Verus.

- `AtomicItem` — one slot for one value, guarded by a sequence number and the number of readers
  inside.
- `BufferedAtomic` — a ring of slots that always has the latest value at hand. Old values are
  overwritten.
- `BufferedAtomicSeq` — a bounded queue on a ring of slots: values come out in the order in which
  they went in, and none is lost. A writer that is a whole ring ahead is refused, and so is one that
  finds another writer at work, or an overtaken reader still in its slot.
- `RingBuffer` — a ring of byte buffers of one size. `BufferedAtomic` is more flexible.

The number of slots is a power of two, so that a mask turns a cursor into a slot.

## Layout

- `src/` holds the verified library. Each procedure is given twice: as a method that runs without
  interruption on an exclusive reference, with a contract that says exactly what it returns and
  changes; and as a sequence of single steps (`ItemWrite`, `BufferRead`, `SeqWrite`, ...), each of
  which touches memory once. The methods run those steps.
- `src/item_laws.rs`, `src/buffer_laws.rs`, `src/queue_laws.rs`, `src/slot_laws.rs` and
  `src/ring_laws.rs` state and prove what holds however the steps of several writers and readers
  interleave.
- `app/` puts the buffers into shared memory: it holds the atomics and the cells and performs the
  steps of the library on them, so that any number of threads can use a buffer at once.
- `tests/` runs the library.

## What is proved of several threads

The interleavings are those of single steps in one order that all threads agree on, with any number
of writers and readers. The memory orderings of the atomics in `app/` are not part of what is proved.

- At most one writer at a time is inside a slot, and a slot holds the results of whole writes.
- A reader keeps a copy only if no write to the slot was published during the read and no writer is
  inside.
- A reader of an `AtomicItem` marks its presence, and a writer puts nothing in place while a reader is
  inside. So a value that is being dropped or overwritten is never looked at. The bytes of a
  `RingBuffer` may be copied while they are being replaced; such a copy is thrown away.
- Whenever a write of a sole writer is over, a read finds what it wrote.
- Every value that the queue accepts is taken out exactly once, in order.

Write states and cursors wrap around. A read of a `RingBuffer`, or a call on the queue, that lasts
until one of them has gone all the way round is left out.
