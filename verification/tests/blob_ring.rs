use fastlog_core::BlobRingBuffer;

fn stamped(ts_ms: i64, tail: &[u8]) -> Vec<u8> {
    let mut v = (ts_ms as u64).to_le_bytes().to_vec();
    v.extend_from_slice(tail);
    v
}

#[test]
fn test_ringbuffer_overwrite() {
    let mut rb = BlobRingBuffer::new(3);

    rb.push(vec![1]);
    rb.push(vec![2]);
    rb.push(vec![3]);

    // Now overwrite: the oldest blob is evicted and order stays oldest-first
    rb.push(vec![9]);

    let dump = rb.dump();

    assert_eq!(dump, vec![vec![2], vec![3], vec![9]]);
}

#[test]
fn test_dump_in_order_when_not_full() {
    let mut rb = BlobRingBuffer::new(5);
    rb.push(vec![1]);
    rb.push(vec![2]);
    rb.push(vec![3]);
    assert_eq!(rb.dump(), vec![vec![1], vec![2], vec![3]]);
}

#[test]
fn test_dump_empty() {
    let rb = BlobRingBuffer::new(4);
    assert_eq!(rb.dump(), Vec::<Vec<u8>>::new());
}

#[test]
fn test_capacity_zero_coerced_to_one() {
    let mut rb = BlobRingBuffer::new(0);
    rb.push(vec![7]);
    rb.push(vec![8]);
    assert_eq!(rb.dump(), vec![vec![8]]);
}

#[test]
fn test_dump_last_seconds_window() {
    let now_ms: i64 = 100_000;
    let mut rb = BlobRingBuffer::new(8);
    rb.push(stamped(80_000, b"old"));
    rb.push(vec![1, 2]); // shorter than 8 bytes: silently excluded
    rb.push(stamped(95_000, b"recent"));
    rb.push(stamped(99_500, b"newest"));

    let out = rb.dump_last_seconds(10, now_ms);
    assert_eq!(out, vec![stamped(95_000, b"recent"), stamped(99_500, b"newest")]);
}

#[test]
fn test_dump_last_seconds_excludes_short() {
    let mut rb = BlobRingBuffer::new(4);
    rb.push(vec![0, 1, 2, 3, 4, 5, 6]); // 7 bytes only
    let out = rb.dump_last_seconds(1_000_000, 0);
    assert_eq!(out, Vec::<Vec<u8>>::new());
}
