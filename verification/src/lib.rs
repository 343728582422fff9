//! Buffered atomics: ring buffers for a value that is written often and read often.

pub mod atomic_item;
pub mod buffer_laws;
pub mod buffered_atomic;
pub mod index;
pub mod item_laws;
pub mod queue_laws;
pub mod ring_laws;
pub mod ringbuffer;
pub mod scan;
pub mod sequential_buffered_atomic;
pub mod slot_laws;
pub mod tally;
pub mod text;

pub use atomic_item::AtomicItem;
pub use buffered_atomic::BufferedAtomic;
pub use ringbuffer::RingBuffer;
pub use sequential_buffered_atomic::BufferedAtomicSeq;
