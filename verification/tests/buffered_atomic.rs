use std::rc::Rc;

use rbuf::atomic_item::ItemRead;
use rbuf::atomic_item::ItemWrite;
use rbuf::buffered_atomic::BufferRead;
use rbuf::buffered_atomic::BufferWrite;
use rbuf::AtomicItem;
use rbuf::BufferedAtomic;

#[test]
fn test_item_write_read() {
    let mut value: AtomicItem<String> = AtomicItem::new();

    assert_eq!(value.try_read(), None);

    assert_eq!(value.try_write("Hello world".to_string()), Ok(()));

    assert_eq!(value.try_read(), Some("Hello world".to_string()));
}

#[test]
fn test_seq_overflow() {
    let mut value: AtomicItem<usize> = AtomicItem::new();
    let _ = value.try_write(5); // initial value
    let _ = value.try_write(5); // initial value should drop here
    assert_eq!(value.drop_count, 1);

    value.seq = usize::MAX - 1;

    assert_eq!(value.seq, usize::MAX - 1);

    // check if values keep being dropped correctly on wrap around
    let _ = value.try_write(10);
    assert_eq!(value.drop_count, 2);
    let _ = value.try_write(15);
    assert_eq!(value.drop_count, 3);
    assert_eq!(value.try_read(), Some(15));
}

#[test]
fn test_item_multiple_read() {
    let mut value: AtomicItem<String> = AtomicItem::new();

    assert_eq!(value.try_write("Hello world".to_string()), Ok(()));

    assert_eq!(value.try_read(), Some("Hello world".to_string()));
    assert_eq!(value.try_read(), Some("Hello world".to_string()));
    assert_eq!(value.try_read(), Some("Hello world".to_string()));
    assert_eq!(value.try_read(), Some("Hello world".to_string()));
}

#[test]
fn test_buffered_atomic_write_read() {
    let mut buffer: BufferedAtomic<String> = BufferedAtomic::new(4);

    buffer.write("Hello world".to_string());
    buffer.write("Hello world".to_string());
    buffer.write("Hello world".to_string());
    buffer.write("Hello world".to_string());
    buffer.write("Final hello world string!".to_string());

    assert_eq!(buffer.read(), "Final hello world string!".to_string());
}

#[test]
fn item_counts_by_two_and_skips_zero() {
    let mut item: AtomicItem<u8> = AtomicItem::new();
    assert_eq!(item.seq, 0);
    assert_eq!(item.try_write(1), Ok(()));
    assert_eq!(item.seq, 2);
    assert_eq!(item.drop_count, 0);

    item.seq = usize::MAX - 1;
    assert_eq!(item.try_write(2), Ok(()));
    assert_eq!(item.seq, 2);
    assert_eq!(item.drop_count, 1);
    assert_eq!(item.try_read(), Some(2));
}

#[test]
fn item_refuses_while_a_writer_is_inside() {
    let mut item: AtomicItem<u8> = AtomicItem::new();
    assert_eq!(item.try_write(1), Ok(()));
    assert!(item.exchange_seq(2, 3));
    assert_eq!(item.try_write(9), Err(9));
    assert_eq!(item.try_read(), None);
    item.store_value(7, true);
    item.publish();
    assert_eq!(item.try_read(), Some(7));
    assert_eq!(item.drop_count, 1);
}

#[test]
fn item_write_decisions() {
    assert!(matches!(ItemWrite::new(5u8), ItemWrite::Load { value: 5 }));
    assert!(matches!(ItemWrite::after_load(5u8, 1), ItemWrite::Refused { value: 5 }));
    assert!(matches!(
        ItemWrite::after_load(5u8, 4),
        ItemWrite::Claim { value: 5, seen: 4, claim: 5 }
    ));
    assert!(matches!(
        ItemWrite::after_load(5u8, usize::MAX - 1),
        ItemWrite::Claim { value: 5, claim: 1, .. }
    ));
    assert!(matches!(
        ItemWrite::after_exchange(5u8, 4, false),
        ItemWrite::Refused { value: 5 }
    ));
    assert!(matches!(
        ItemWrite::after_exchange(5u8, 4, true),
        ItemWrite::Inspect { value: 5, seen: 4 }
    ));
    assert!(matches!(
        ItemWrite::after_inspect(5u8, 4, 0),
        ItemWrite::Store { value: 5, drop_old: true }
    ));
    assert!(matches!(
        ItemWrite::after_inspect(5u8, 0, 0),
        ItemWrite::Store { value: 5, drop_old: false }
    ));
    assert!(matches!(
        ItemWrite::after_inspect(5u8, 4, 1),
        ItemWrite::Release { value: 5, seen: 4 }
    ));
}

#[test]
fn item_read_decisions() {
    assert!(matches!(ItemRead::<u8>::new(), ItemRead::Enter));
    assert!(matches!(ItemRead::<u8>::after_load(0), ItemRead::Leave { result: None }));
    assert!(matches!(ItemRead::<u8>::after_load(3), ItemRead::Leave { result: None }));
    assert!(matches!(ItemRead::<u8>::after_load(4), ItemRead::Copy { seen: 4 }));
    assert!(matches!(
        ItemRead::after_reload(4, 7u8, 4),
        ItemRead::Leave { result: Some(7) }
    ));
    assert!(matches!(ItemRead::after_reload(4, 7u8, 6), ItemRead::Leave { result: None }));
}

/// Two writers find the slot at rest; only the first of them gets in.
#[test]
fn item_lets_one_of_two_writers_in() {
    let mut item: AtomicItem<u8> = AtomicItem::new();
    let first = ItemWrite::after_load(1u8, item.load_seq());
    let second = ItemWrite::after_load(2u8, item.load_seq());

    let mut ends = Vec::new();
    for op in [first, second] {
        if let ItemWrite::Claim { value, seen, claim } = op {
            let won = item.exchange_seq(seen, claim);
            ends.push(ItemWrite::after_exchange(value, seen, won));
        }
    }
    assert!(matches!(ends[0], ItemWrite::Inspect { value: 1, seen: 0 }));
    assert!(matches!(ends[1], ItemWrite::Refused { value: 2 }));
    assert_eq!(item.seq, 1);
}

/// A writer comes in during a read and claims the slot; the copy is not kept.
#[test]
fn item_read_is_given_up_while_a_writer_is_inside() {
    let mut item: AtomicItem<u8> = AtomicItem::new();
    assert_eq!(item.try_write(1), Ok(()));
    item.enter();
    let seen = item.load_seq();
    assert!(matches!(ItemRead::<u8>::after_load(seen), ItemRead::Copy { seen: 2 }));
    let copy = item.copy_value();
    assert!(item.exchange_seq(2, 3));
    assert!(matches!(
        ItemRead::after_reload(seen, copy, item.load_seq()),
        ItemRead::Leave { result: None }
    ));
    item.leave();
    assert_eq!(item.count_readers(), 0);
}

/// A reader is inside; nothing is put in place until it has left, and its copy is kept.
#[test]
fn item_refuses_while_a_reader_is_inside() {
    let mut item: AtomicItem<u8> = AtomicItem::new();
    assert_eq!(item.try_write(1), Ok(()));
    item.enter();
    let seen = item.load_seq();
    assert_eq!(item.try_write(2), Err(2));
    assert_eq!(item.seq, 2);
    let copy = item.copy_value();
    assert!(matches!(
        ItemRead::after_reload(seen, copy, item.load_seq()),
        ItemRead::Leave { result: Some(1) }
    ));
    item.leave();
    assert_eq!(item.try_write(2), Ok(()));
    assert_eq!(item.try_read(), Some(2));
}

/// A claimed slot is given back as it was.
#[test]
fn item_can_be_given_back() {
    let mut item: AtomicItem<u8> = AtomicItem::new();
    assert_eq!(item.try_write(1), Ok(()));
    assert!(item.exchange_seq(2, 3));
    item.release(2);
    assert_eq!(item.try_read(), Some(1));
    assert_eq!(item.drop_count, 0);
}

/// A value is dropped when another takes its place, and not when the slot is dropped.
#[test]
fn item_drops_what_it_replaces_and_nothing_else() {
    let first = Rc::new(1);
    let second = Rc::new(2);
    let mut item: AtomicItem<Rc<i32>> = AtomicItem::new();
    assert_eq!(item.try_write(first.clone()), Ok(()));
    assert_eq!(Rc::strong_count(&first), 2);
    assert_eq!(item.try_write(second.clone()), Ok(()));
    assert_eq!(Rc::strong_count(&first), 1);
    assert_eq!(Rc::strong_count(&second), 2);
    drop(item);
    assert_eq!(Rc::strong_count(&second), 2);
}

#[test]
fn buffer_write_passes_over_a_held_slot() {
    let mut buffer: BufferedAtomic<u32> = BufferedAtomic::new(4);
    buffer.write(1);
    assert_eq!(buffer.write_index, 1);
    assert!(buffer.ringbuffer[1].exchange_seq(0, 1));
    buffer.write(2);
    assert_eq!(buffer.write_index, 3);
    assert_eq!(buffer.ringbuffer[1].seq, 1);
    assert_eq!(buffer.ringbuffer[2].try_read(), Some(2));
    assert_eq!(buffer.read(), 2);
}

#[test]
fn buffer_write_passes_over_a_slot_that_is_being_read() {
    let mut buffer: BufferedAtomic<u32> = BufferedAtomic::new(2);
    buffer.write(1);
    buffer.write(2);
    buffer.ringbuffer[0].enter();
    buffer.write(3);
    assert_eq!(buffer.write_index, 4);
    assert_eq!(buffer.ringbuffer[0].try_read(), Some(1));
    assert_eq!(buffer.read(), 3);
    buffer.ringbuffer[0].leave();
    buffer.write(4);
    assert_eq!(buffer.ringbuffer[0].try_read(), Some(4));
    assert_eq!(buffer.read(), 4);
}

#[test]
fn buffer_keeps_the_latest_writes() {
    let mut buffer: BufferedAtomic<u32> = BufferedAtomic::new(4);
    for value in 0..7 {
        buffer.write(value);
    }
    let mut kept: Vec<u32> = Vec::new();
    for item in &buffer.ringbuffer {
        kept.push(item.try_read().unwrap());
    }
    assert_eq!(kept, vec![4, 5, 6, 3]);
    assert_eq!(buffer.read(), 6);
}

#[test]
fn buffer_cursor_wraps_around() {
    let mut buffer: BufferedAtomic<u32> = BufferedAtomic::new(4);
    buffer.write_index = usize::MAX;
    buffer.write(8);
    assert_eq!(buffer.write_index, 0);
    assert_eq!(buffer.ringbuffer[3].try_read(), Some(8));
    assert_eq!(buffer.read(), 8);
    buffer.write(9);
    assert_eq!(buffer.ringbuffer[0].try_read(), Some(9));
    assert_eq!(buffer.read(), 9);
}

#[test]
fn buffer_decisions() {
    assert!(matches!(
        BufferWrite::after_advance(1u8, 6, 3),
        BufferWrite::Attempt { index: 2, value: 1 }
    ));
    assert!(matches!(BufferWrite::<u8>::after_attempt(Ok(())), BufferWrite::Done));
    assert!(matches!(
        BufferWrite::after_attempt(Err(1u8)),
        BufferWrite::Advance { value: 1 }
    ));
    assert!(matches!(BufferRead::<u8>::after_load(0, 3), BufferRead::Attempt { index: 3 }));
    assert!(matches!(BufferRead::after_attempt(Some(1u8)), BufferRead::Done { value: 1 }));
    assert!(matches!(BufferRead::<u8>::after_attempt(None), BufferRead::Load));
}

#[test]
fn default_buffer_has_no_slots() {
    let buffer: BufferedAtomic<u32> = BufferedAtomic::default();
    assert_eq!(buffer.ringbuffer.len(), 0);
    assert_eq!(buffer.write_index, 0);
    assert_eq!(buffer.mask, 0);
}
