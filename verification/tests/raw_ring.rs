use fastlog_core::RawRingBuffer;

#[test]
fn test_snapshot_initial_zeroes() {
    let rb = RawRingBuffer::new(3);
    assert_eq!(rb.snapshot_raw(), vec![0u8, 0, 0]);
}

#[test]
fn test_snapshot_rotation_after_wrap() {
    let mut rb = RawRingBuffer::new(4);
    rb.push(b"abcdef");
    // the last 4 bytes written, oldest first
    assert_eq!(rb.snapshot_raw(), b"cdef".to_vec());
}

#[test]
fn test_snapshot_partial_fill() {
    let mut rb = RawRingBuffer::new(3);
    rb.push(b"ab");
    assert_eq!(rb.snapshot_raw(), vec![0u8, b'a', b'b']);
}

#[test]
fn test_snapshot_is_owned_copy() {
    let mut rb = RawRingBuffer::new(2);
    rb.push(b"xy");
    let snap = rb.snapshot_raw();
    rb.push(b"zz");
    assert_eq!(snap, b"xy".to_vec());
    assert_eq!(rb.snapshot_raw(), b"zz".to_vec());
}
