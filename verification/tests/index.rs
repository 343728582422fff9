use rbuf::index::latest_index;
use rbuf::index::slot_index;

#[test]
fn slot_of_a_cursor() {
    assert_eq!(slot_index(0, 7), 0);
    assert_eq!(slot_index(13, 7), 5);
    assert_eq!(slot_index(usize::MAX, 7), 7);
    assert_eq!(slot_index(13, 0), 0);
}

#[test]
fn slot_before_a_cursor() {
    assert_eq!(latest_index(0, 7), 7);
    assert_eq!(latest_index(8, 7), 7);
    assert_eq!(latest_index(9, 7), 0);
    assert_eq!(latest_index(0, 0), 0);
}
