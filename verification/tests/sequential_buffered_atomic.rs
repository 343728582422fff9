use rbuf::sequential_buffered_atomic::SeqRead;
use rbuf::sequential_buffered_atomic::SeqWrite;
use rbuf::BufferedAtomicSeq;

#[test]
fn test_read_write() {
    let mut buffer = BufferedAtomicSeq::<usize>::new(4);

    let _ = buffer.write(15);

    assert_eq!(buffer.read(), Some(15));
    assert_eq!(buffer.read(), None); // the single available item has been read, so now it returns none
}

#[test]
fn test_write_full() {
    let mut buffer = BufferedAtomicSeq::<usize>::new(1);
    assert!(buffer.write(1).is_ok());
    assert!(buffer.write(2).is_err());
}

#[test]
fn test_read_write_multiple() {
    let mut buffer = BufferedAtomicSeq::<usize>::new(16);

    for i in 0..16 {
        let res = buffer.write(i);
        println!("{i} - {:?}", res);
    }

    for _ in 0..16 {
        println!("{:?}", buffer.read());
    }
}

#[test]
fn queue_keeps_order_and_loses_nothing() {
    let mut buffer = BufferedAtomicSeq::<usize>::new(4);
    let mut sent: Vec<usize> = Vec::new();
    let mut received: Vec<usize> = Vec::new();
    for value in 0..20 {
        if buffer.write(value).is_ok() {
            sent.push(value);
        }
        if value % 3 == 0 {
            received.extend(buffer.read());
        }
    }
    while let Some(value) = buffer.read() {
        received.push(value);
    }
    assert_eq!(received, sent);
    assert_eq!(&sent[..5], &[0, 1, 2, 3, 4]);
}

#[test]
fn queue_is_full_at_its_size() {
    let mut buffer = BufferedAtomicSeq::<u8>::new(4);
    for value in 0..4 {
        assert_eq!(buffer.write(value), Ok(()));
    }
    assert_eq!(buffer.write(9), Err(()));
    assert_eq!(buffer.read(), Some(0));
    assert_eq!(buffer.write(9), Ok(()));
    assert_eq!(buffer.read(), Some(1));
}

#[test]
fn queue_refuses_while_the_slot_is_held() {
    let mut buffer = BufferedAtomicSeq::<u8>::new(2);
    assert!(buffer.ringbuffer[0].exchange_seq(0, 1));
    assert_eq!(buffer.write(1), Err(()));
    assert_eq!(buffer.write_cursor, 0);
    assert_eq!(buffer.write_claim, 0);
    buffer.ringbuffer[0].store_value(7, false);
    buffer.ringbuffer[0].publish();
    assert_eq!(buffer.write(1), Ok(()));
    assert_eq!(buffer.read(), Some(1));
}

#[test]
fn queue_refuses_while_a_reader_is_in_the_slot() {
    let mut buffer = BufferedAtomicSeq::<u8>::new(1);
    assert_eq!(buffer.write(1), Ok(()));
    buffer.ringbuffer[0].enter();
    assert_eq!(buffer.read(), Some(1));
    assert_eq!(buffer.write(2), Err(()));
    assert_eq!(buffer.write_claim, 1);
    assert_eq!(buffer.write_cursor, 1);
    buffer.ringbuffer[0].leave();
    assert_eq!(buffer.write(2), Ok(()));
    assert_eq!(buffer.read(), Some(2));
}

#[test]
fn queue_cursors_wrap_around() {
    let mut buffer = BufferedAtomicSeq::<u8>::new(4);
    buffer.write_claim = usize::MAX;
    buffer.write_cursor = usize::MAX;
    buffer.read_cursor = usize::MAX;
    assert_eq!(buffer.write(1), Ok(()));
    assert_eq!(buffer.write(2), Ok(()));
    assert_eq!(buffer.write_cursor, 1);
    assert_eq!(buffer.read(), Some(1));
    assert_eq!(buffer.read(), Some(2));
    assert_eq!(buffer.read(), None);
    assert_eq!(buffer.read_cursor, 1);
}

#[test]
fn queue_decisions() {
    assert!(matches!(
        SeqWrite::after_cursors(1u8, 4, 0, 3),
        SeqWrite::Done { result: Err(()) }
    ));
    assert!(matches!(
        SeqWrite::after_cursors(1u8, 5, 2, 3),
        SeqWrite::Claim { value: 1, write_pos: 5, index: 1, cursor: 6 }
    ));
    assert!(matches!(
        SeqWrite::after_claim(1u8, 5, 1, true),
        SeqWrite::Attempt { value: 1, write_pos: 5, index: 1 }
    ));
    assert!(matches!(
        SeqWrite::after_claim(1u8, 5, 1, false),
        SeqWrite::Done { result: Err(()) }
    ));
    assert!(matches!(
        SeqWrite::<u8>::after_attempt(usize::MAX, Ok(())),
        SeqWrite::Publish { cursor: 0 }
    ));
    assert!(matches!(
        SeqWrite::after_attempt(5, Err(1u8)),
        SeqWrite::Release { write_pos: 5 }
    ));
    assert!(matches!(SeqRead::<u8>::after_cursors(5, 5, 3), SeqRead::Done { result: None }));
    assert!(matches!(
        SeqRead::<u8>::after_cursors(5, 6, 3),
        SeqRead::Attempt { read_pos: 5, index: 1 }
    ));
    assert!(matches!(
        SeqRead::after_attempt(5, Some(1u8)),
        SeqRead::Claim { read_pos: 5, cursor: 6, value: 1 }
    ));
    assert!(matches!(
        SeqRead::after_claim(1u8, true),
        SeqRead::Done { result: Some(1) }
    ));
    assert!(matches!(SeqRead::after_claim(1u8, false), SeqRead::LoadRead));
    assert!(matches!(SeqRead::<u8>::after_attempt(5, None), SeqRead::Done { result: None }));
}

/// Two writers load the same cursor; only the first of them may touch the slot.
#[test]
fn queue_lets_one_of_two_writers_work() {
    let mut buffer = BufferedAtomicSeq::<u8>::new(4);
    let mut ends = Vec::new();
    let first = SeqWrite::after_cursors(1u8, buffer.write_cursor, buffer.read_cursor, 3);
    let second = SeqWrite::after_cursors(2u8, buffer.write_cursor, buffer.read_cursor, 3);
    for op in [first, second] {
        if let SeqWrite::Claim { value, write_pos, index, cursor } = op {
            let won = buffer.exchange_claim(write_pos, cursor);
            ends.push(SeqWrite::after_claim(value, write_pos, index, won));
        }
    }
    assert!(matches!(ends[0], SeqWrite::Attempt { value: 1, write_pos: 0, index: 0 }));
    assert!(matches!(ends[1], SeqWrite::Done { result: Err(()) }));
    assert_eq!(buffer.write_claim, 1);
    assert_eq!(buffer.write_cursor, 0);
}

/// Two readers copy the same value; only the first of them keeps it.
#[test]
fn queue_hands_a_value_to_one_of_two_readers() {
    let mut buffer = BufferedAtomicSeq::<u8>::new(4);
    assert_eq!(buffer.write(7), Ok(()));
    let mut ends = Vec::new();
    let first = SeqRead::after_attempt(0, buffer.ringbuffer[0].try_read());
    let second = SeqRead::after_attempt(0, buffer.ringbuffer[0].try_read());
    for op in [first, second] {
        if let SeqRead::Claim { read_pos, cursor, value } = op {
            let won = buffer.exchange_read(read_pos, cursor);
            ends.push(SeqRead::after_claim(value, won));
        }
    }
    assert!(matches!(ends[0], SeqRead::Done { result: Some(7) }));
    assert!(matches!(ends[1], SeqRead::LoadRead));
    assert_eq!(buffer.read_cursor, 1);
}
