//! Fixed-size circular byte store for high-frequency raw writes.
//!
//! Writers are serialized by exclusive borrows: `push` takes `&mut self`, so
//! no snapshot can ever observe a torn, partially written byte sequence.
//! Snapshots are freshly owned copies with no aliasing into the live buffer.

use vstd::prelude::*;

verus! {

/// A rolling byte stream over a fixed byte capacity; once the buffer has
/// wrapped, new bytes overwrite the oldest ones.
pub struct RingBuffer {
    buf: Vec<u8>,
    capacity: usize,
    write_index: usize,
}

impl RingBuffer {
    /// Byte capacity, fixed at construction.
    pub closed spec fn cap(self) -> nat {
        self.capacity as nat
    }

    /// Structural invariant: the storage matches the capacity and the
    /// cursor is in range.
    pub closed spec fn wf(self) -> bool {
        &&& self.buf@.len() == self.capacity
        &&& self.capacity >= 1
        &&& self.write_index < self.capacity
    }

    /// The retained bytes in chronological write order: the storage
    /// rotated at the cursor, oldest byte first.
    pub closed spec fn stream(self) -> Seq<u8> {
        self.buf@.skip(self.write_index as int) + self.buf@.take(self.write_index as int)
    }

    /// Creates a ring over `capacity` zero-initialized bytes.
    pub fn new(capacity: usize) -> (r: RingBuffer)
        requires
            capacity >= 1,
        ensures
            r.wf(),
            r.cap() == capacity,
            r.stream() == Seq::new(capacity as nat, |i: int| 0u8),
    {
        let mut buf: Vec<u8> = Vec::new();
        let mut i: usize = 0;
        while i < capacity
            invariant
                i <= capacity,
                buf@ =~= Seq::new(i as nat, |j: int| 0u8),
            decreases capacity - i,
        {
            buf.push(0);
            proof {
                assert(buf@ =~= Seq::new((i + 1) as nat, |j: int| 0u8));
            }
            i = i + 1;
        }
        let r = RingBuffer { buf, capacity, write_index: 0 };
        proof {
            assert(r.stream() =~= Seq::new(capacity as nat, |j: int| 0u8));
        }
        r
    }

    /// Writes the bytes of `data` in order starting at the cursor, wrapping
    /// modulo the capacity: the retained stream afterwards is the last
    /// `capacity` bytes of the old stream followed by `data`.
    pub fn push(&mut self, data: &[u8])
        requires
            old(self).wf(),
        ensures
            final(self).wf(),
            final(self).cap() == old(self).cap(),
            final(self).stream() == (old(self).stream() + data@).skip(data@.len() as int),
    {
        let mut i: usize = 0;
        while i < data.len()
            invariant
                self.wf(),
                self.cap() == old(self).cap(),
                i <= data@.len(),
                self.stream() =~= (old(self).stream() + data@.take(i as int)).skip(i as int),
            decreases data@.len() - i,
        {
            let ghost pre = *self;
            let b = data[i];
            let w = self.write_index;
            self.buf[w] = b;
            self.write_index = if w + 1 == self.capacity {
                0
            } else {
                w + 1
            };
            proof {
                let c = pre.capacity as int;
                let wi = pre.write_index as int;
                // one write advances the rotated stream by one byte
                if wi + 1 < c {
                    assert(self.buf@.take(wi + 1) =~= pre.buf@.take(wi).push(b));
                    assert(self.buf@.skip(wi + 1) =~= pre.buf@.skip(wi + 1));
                    assert(pre.stream().skip(1) =~= pre.buf@.skip(wi + 1) + pre.buf@.take(wi));
                    assert(self.stream() =~= pre.stream().skip(1).push(b));
                } else {
                    assert(self.buf@ =~= pre.buf@.take(wi).push(b));
                    assert(self.stream() =~= self.buf@);
                    assert(pre.stream().skip(1) =~= pre.buf@.take(wi));
                    assert(self.stream() =~= pre.stream().skip(1).push(b));
                }
                // and the loop invariant advances with it
                assert(pre.stream() =~= (old(self).stream() + data@.take(i as int)).skip(i as int));
                assert(pre.stream().skip(1).push(b) =~= (old(self).stream() + data@.take(
                    i as int + 1,
                )).skip(i as int + 1));
            }
            i = i + 1;
        }
        proof {
            assert(data@.take(data@.len() as int) =~= data@);
        }
    }

    /// Returns a freshly owned snapshot of the retained stream, rotated so
    /// that index 0 holds the oldest retained byte.
    pub fn snapshot_raw(&self) -> (r: Vec<u8>)
        requires
            self.wf(),
        ensures
            r@ == self.stream(),
    {
        let mut out: Vec<u8> = Vec::new();
        let mut i: usize = self.write_index;
        while i < self.capacity
            invariant
                self.wf(),
                self.write_index <= i <= self.capacity,
                out@ =~= self.buf@.subrange(self.write_index as int, i as int),
            decreases self.capacity - i,
        {
            out.push(self.buf[i]);
            i = i + 1;
        }
        let mut j: usize = 0;
        while j < self.write_index
            invariant
                self.wf(),
                j <= self.write_index,
                out@ =~= self.buf@.skip(self.write_index as int) + self.buf@.subrange(0, j as int),
            decreases self.write_index - j,
        {
            out.push(self.buf[j]);
            j = j + 1;
        }
        proof {
            assert(out@ =~= self.stream());
        }
        out
    }
}

} // verus!
