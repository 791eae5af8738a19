use auto_claw::buffer::DoubleBuffer;

#[test]
fn take_hands_out_in_order_and_empties() {
    let mut b = DoubleBuffer::new();
    assert!(!b.has_pending());
    b.push(1u8);
    b.push(2u8);
    assert!(b.has_pending());
    assert_eq!(b.take_pending(), vec![1u8, 2u8]);
    assert!(!b.has_pending());
    b.push(3u8);
    assert_eq!(b.take_pending(), vec![3u8]);
    assert_eq!(b.take_pending(), Vec::<u8>::new());
}
