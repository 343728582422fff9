use std::collections::HashMap;

use rbuf::ringbuffer::copy_over;
use rbuf::ringbuffer::inscribe;
use rbuf::ringbuffer::RingRead;
use rbuf::ringbuffer::RingWrite;
use rbuf::ringbuffer::Slot;
use rbuf::text::text_of;
use rbuf::text::trimmed_text;
use rbuf::RingBuffer;

#[test]
fn test_basic_write_read() {
    let mut ringbuffer = RingBuffer::new(128, 32, 0);

    let data = b"Hello World";
    ringbuffer.write(data);

    let read_data = ringbuffer.read();
    assert_eq!(&read_data[..data.len()], data);
}

#[test]
fn test_overwrite() {
    let mut ringbuffer = RingBuffer::new(128, 1, 0);

    let data = b"Hello World";

    // Write initial data
    ringbuffer.write(data);

    // Write over its beginning
    ringbuffer.write(b"World");

    let read_data = ringbuffer.read();
    assert_eq!(&read_data[..data.len()], b"World World");
}

#[test]
fn test_read_str() {
    let mut ringbuffer = RingBuffer::new(128, 32, 0);

    ringbuffer.write(b"Hello World\0\0");
    let result = ringbuffer.read_str();
    assert_eq!(result, "Hello World");
}

#[test]
fn test_multiple_writes() {
    let mut ringbuffer = RingBuffer::new(1024, 32, 0);

    let data1 = b"First";
    let data2 = b"Second";
    let data3 = b"Third";

    ringbuffer.write(data1);
    ringbuffer.write(data2);
    ringbuffer.write(data3);

    // Should read the last written data
    let read_data = ringbuffer.read();
    assert_eq!(&read_data[..data3.len()], data3);
}

#[test]
fn test_buffer_truncation() {
    let mut ringbuffer = RingBuffer::new(8, 1, 0); // Small buffer size

    // Write more data than fits in the slot
    let large_data = b"Hello World This is too long";
    ringbuffer.write(large_data);

    let read_data = ringbuffer.read();
    // Should only contain first 8 bytes
    assert_eq!(read_data, b"Hello Wo");
}

#[test]
fn test_empty_buffer() {
    let ringbuffer = RingBuffer::new(128, 32, 0);

    let read_data = ringbuffer.read();
    assert_eq!(read_data.len(), 128);
}

#[test]
fn test_store_struct_pointer() {
    let mut ringbuffer = RingBuffer::new(32, 32, 0);

    struct Test {
        a: u32,
        b: u32,
        c: String,
    }

    let data = Box::new(Test {
        a: 1,
        b: 5,
        c: "test".to_string(),
    });

    let ptr_value = std::ptr::from_ref(data.as_ref()) as usize;

    // Every struct by the address it lies at
    let mut by_address = HashMap::new();
    by_address.insert(ptr_value, data);

    let pointer_bytes = ptr_value.to_ne_bytes();

    ringbuffer.write(&pointer_bytes);

    let read_bytes = &ringbuffer.read()[..pointer_bytes.len()];

    let ptr_value = usize::from_ne_bytes(read_bytes.try_into().unwrap());

    let found = by_address.remove(&ptr_value).unwrap();
    assert_eq!(found.a, 1);
    assert_eq!(found.b, 5);
    assert_eq!(found.c, "test".to_string());
}

#[test]
fn write_and_clear_blanks_the_rest() {
    let mut ringbuffer = RingBuffer::new(8, 1, b'.');
    ringbuffer.write(b"abcdefgh");
    ringbuffer.write_and_clear(b"xy");
    assert_eq!(ringbuffer.read(), b"xy......");
    ringbuffer.write(b"");
    assert_eq!(ringbuffer.read(), b"xy......");
}

#[test]
fn read_to_buf_fills_as_much_as_there_is() {
    let mut ringbuffer = RingBuffer::new(4, 2, 0);
    ringbuffer.write(b"abcd");
    let mut long = vec![9u8; 6];
    ringbuffer.read_to_buf(&mut long);
    assert_eq!(long, vec![b'a', b'b', b'c', b'd', 9, 9]);
    let mut short = vec![9u8; 2];
    ringbuffer.read_to_buf(&mut short);
    assert_eq!(short, b"ab");
}

#[test]
fn read_of_a_fresh_ring_finds_the_clear_value() {
    let ringbuffer = RingBuffer::new(3, 4, 7);
    assert_eq!(ringbuffer.read(), vec![7, 7, 7]);
}

#[test]
fn write_passes_over_a_held_slot() {
    let mut ringbuffer = RingBuffer::new(2, 4, 0);
    assert!(ringbuffer.slots[0].exchange_state(0, 1));
    ringbuffer.write(b"ab");
    assert_eq!(ringbuffer.write_idx, 2);
    assert_eq!(ringbuffer.slots[0].buffer, vec![0, 0]);
    assert_eq!(ringbuffer.slots[1].buffer, b"ab");
    assert_eq!(ringbuffer.slots[1].write_state, 2);
    assert_eq!(ringbuffer.read(), b"ab");
}

#[test]
fn ring_cursor_and_write_state_wrap_around() {
    let mut ringbuffer = RingBuffer::new(2, 4, 0);
    ringbuffer.write_idx = usize::MAX;
    ringbuffer.slots[3].write_state = usize::MAX - 1;
    ringbuffer.write(b"ab");
    assert_eq!(ringbuffer.write_idx, 0);
    assert_eq!(ringbuffer.slots[3].write_state, 0);
    assert_eq!(ringbuffer.read(), b"ab");
}

#[test]
fn text_is_read_back() {
    let mut ringbuffer = RingBuffer::new(1024, 32, 0);
    ringbuffer.write("Hello World".as_bytes());
    assert_eq!(ringbuffer.read_str(), "Hello World");
    ringbuffer.write_and_clear("Grüße 🚂".as_bytes());
    assert_eq!(ringbuffer.read_str(), "Grüße 🚂");
}

#[test]
fn text_with_invalid_bytes_is_replaced() {
    let mut ringbuffer = RingBuffer::new(4, 1, 0);
    ringbuffer.write(&[b'a', 0xff, b'b', 0]);
    assert_eq!(ringbuffer.read_str(), "a\u{fffd}b");
    assert_eq!(text_of(&[0xff, 0, 0]), "\u{fffd}");
}

#[test]
fn only_nuls_at_the_end_are_trimmed() {
    assert_eq!(trimmed_text("\0a\0b\0\0"), "\0a\0b");
    assert_eq!(trimmed_text("\0\0"), "");
    assert_eq!(trimmed_text("abc"), "abc");
    assert_eq!(trimmed_text(""), "");
}

#[test]
fn ring_decisions() {
    assert!(matches!(RingWrite::after_advance(6, 3), RingWrite::Check { index: 2 }));
    assert!(matches!(RingWrite::after_check(2, 5), RingWrite::Advance));
    assert!(matches!(
        RingWrite::after_check(2, 4),
        RingWrite::Claim { index: 2, seen: 4, claim: 5 }
    ));
    assert!(matches!(RingWrite::after_exchange(2, true), RingWrite::Fill { index: 2 }));
    assert!(matches!(RingWrite::after_exchange(2, false), RingWrite::Advance));
    assert!(matches!(RingRead::after_load(0, 3), RingRead::Check { index: 3 }));
    assert!(matches!(RingRead::after_check(2, 5), RingRead::Load));
    assert!(matches!(RingRead::after_check(2, 4), RingRead::Copy { index: 2, seen: 4 }));
    assert!(matches!(RingRead::after_recheck(4, 4), RingRead::Done));
    assert!(matches!(RingRead::after_recheck(4, 6), RingRead::Load));
}

/// A writer comes in during a read; the copy is not kept.
#[test]
fn ring_read_is_given_up_after_a_write() {
    let mut ringbuffer = RingBuffer::new(2, 1, 0);
    let before = ringbuffer.slots[0].write_state;
    ringbuffer.write(b"ab");
    let after = ringbuffer.slots[0].write_state;
    assert!(matches!(RingRead::after_recheck(before, after), RingRead::Load));
}

#[test]
fn a_slot_is_inscribed_whole_or_over_its_beginning() {
    let mut slot = Slot::new(4, 1);
    assert_eq!(slot.write_state, 0);
    assert_eq!(slot.buffer, vec![1, 1, 1, 1]);
    inscribe(&mut slot.buffer, &[5, 6], None);
    assert_eq!(slot.buffer, vec![5, 6, 1, 1]);
    inscribe(&mut slot.buffer, &[7], Some(0));
    assert_eq!(slot.buffer, vec![7, 0, 0, 0]);
    copy_over(&mut slot.buffer, &[1, 2, 3, 4, 5]);
    assert_eq!(slot.buffer, vec![1, 2, 3, 4]);
}

/// Two writers find the slot free; only the first of them gets in.
#[test]
fn a_slot_lets_one_of_two_writers_in() {
    let mut slot = Slot::new(2, 0);
    let mut ends = Vec::new();
    let first = RingWrite::after_check(0, slot.write_state);
    let second = RingWrite::after_check(0, slot.write_state);
    for op in [first, second] {
        if let RingWrite::Claim { index, seen, claim } = op {
            let won = slot.exchange_state(seen, claim);
            ends.push(RingWrite::after_exchange(index, won));
        }
    }
    assert!(matches!(ends[0], RingWrite::Fill { index: 0 }));
    assert!(matches!(ends[1], RingWrite::Advance));
    assert_eq!(slot.write_state, 1);
    slot.end();
    assert_eq!(slot.write_state, 2);
}
