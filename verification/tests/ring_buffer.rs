use ring_buffer::RingBuffer;

#[test]
fn it_works() {
    let mut ring = RingBuffer::<32>::new();
    assert_eq!(ring.empty(), true);
    for i in [1u8; 31] {
        assert_eq!(ring.write(i), true);
    }
    assert_eq!(ring.empty(), false);
    assert_eq!(ring.full(), true);
    assert_eq!(ring.write(4u8), false);
    for _i in 0..31usize {
        assert_eq!(ring.read(), Some(1u8));
    }
    assert_eq!(ring.empty(), true);
    assert_eq!(ring.full(), false);
}

#[test]
fn fresh_buffer_is_empty_and_not_full() {
    let small = RingBuffer::<2>::new();
    assert_eq!(small.empty(), true);
    assert_eq!(small.full(), false);
    assert_eq!(small.len(), 0);

    let larger = RingBuffer::<8>::new();
    assert_eq!(larger.empty(), true);
    assert_eq!(larger.full(), false);
    assert_eq!(larger.len(), 0);
}

#[test]
fn empty_and_full_are_never_both_true() {
    // Drive a capacity-2 buffer, the tightest one, through every state it
    // has and check the two queries never agree.
    let mut ring = RingBuffer::<2>::new();
    assert!(!(ring.empty() && ring.full()));
    assert_eq!(ring.write(7), true);
    assert!(!(ring.empty() && ring.full()));
    assert_eq!(ring.read(), Some(7));
    assert!(!(ring.empty() && ring.full()));
}

#[test]
fn writes_succeed_until_full_then_fail() {
    let mut ring = RingBuffer::<5>::new();
    for i in 0..4u8 {
        assert_eq!(ring.write(i), true);
    }
    assert_eq!(ring.full(), true);
    assert_eq!(ring.write(99), false);
    assert_eq!(ring.len(), 4);
}

#[test]
fn len_counts_each_write() {
    let mut ring = RingBuffer::<8>::new();
    for k in 0..7u8 {
        assert_eq!(ring.len(), k as usize);
        assert_eq!(ring.write(k), true);
        assert_eq!(ring.len(), k as usize + 1);
    }
}

#[test]
fn reads_return_writes_in_fifo_order() {
    let mut ring = RingBuffer::<8>::new();
    let bytes = [3u8, 14, 15, 92, 65];
    for b in bytes {
        assert_eq!(ring.write(b), true);
    }
    for b in bytes {
        assert_eq!(ring.read(), Some(b));
    }
    assert_eq!(ring.empty(), true);
}

#[test]
fn queries_are_idempotent() {
    let mut ring = RingBuffer::<4>::new();
    assert_eq!(ring.write(42), true);
    for _i in 0..3usize {
        assert_eq!(ring.empty(), false);
        assert_eq!(ring.full(), false);
        assert_eq!(ring.len(), 1);
    }
}

#[test]
fn read_from_empty_changes_nothing() {
    let mut ring = RingBuffer::<4>::new();
    assert_eq!(ring.read(), None);
    assert_eq!(ring.len(), 0);
    assert_eq!(ring.empty(), true);
    assert_eq!(ring.full(), false);

    // The same holds for a buffer emptied by reads, wherever head stopped.
    assert_eq!(ring.write(5), true);
    assert_eq!(ring.read(), Some(5));
    assert_eq!(ring.read(), None);
    assert_eq!(ring.len(), 0);
    assert_eq!(ring.empty(), true);
}

#[test]
fn write_to_full_changes_nothing() {
    let mut ring = RingBuffer::<4>::new();
    assert_eq!(ring.write(1), true);
    assert_eq!(ring.write(2), true);
    assert_eq!(ring.write(3), true);
    assert_eq!(ring.full(), true);
    assert_eq!(ring.write(4), false);
    assert_eq!(ring.len(), 3);
    assert_eq!(ring.full(), true);
    // The buffered bytes are untouched by the rejected write.
    assert_eq!(ring.read(), Some(1));
    assert_eq!(ring.read(), Some(2));
    assert_eq!(ring.read(), Some(3));
    assert_eq!(ring.read(), None);
}

#[test]
fn alternating_writes_and_reads_wrap_around() {
    let mut ring = RingBuffer::<4>::new();
    assert_eq!(ring.write(10), true);
    assert_eq!(ring.write(20), true);
    assert_eq!(ring.read(), Some(10));
    assert_eq!(ring.write(30), true);
    assert_eq!(ring.write(40), true);
    assert_eq!(ring.read(), Some(20));
    assert_eq!(ring.read(), Some(30));
    assert_eq!(ring.read(), Some(40));
    assert_eq!(ring.empty(), true);
}
