//! Fixed-slot circular store of variable-length byte blobs.
//!
//! The buffer retains the most recently pushed blobs, overwriting the oldest
//! once full, and extracts snapshots in chronological (oldest-first) order.

use vstd::prelude::*;

verus! {

/// Effect of one push on the chronological contents of a ring with
/// capacity `c`: append the blob, evicting the oldest entry when full.
pub open spec fn ring_push(s: Seq<Seq<u8>>, c: nat, b: Seq<u8>) -> Seq<Seq<u8>> {
    if s.len() < c {
        s.push(b)
    } else {
        s.skip(1).push(b)
    }
}

/// Effect of pushing the blobs `bs` in order, starting from contents `s`.
pub open spec fn ring_push_all(s: Seq<Seq<u8>>, c: nat, bs: Seq<Seq<u8>>) -> Seq<Seq<u8>>
    decreases bs.len(),
{
    if bs.len() == 0 {
        s
    } else {
        ring_push(ring_push_all(s, c, bs.drop_last()), c, bs.last())
    }
}

/// A wrapped index `a` with `0 <= a < 2c` reduced modulo `c`.
proof fn lemma_wrap(a: int, c: int)
    requires
        c >= 1,
        0 <= a < 2 * c,
    ensures
        a % c == if a < c {
            a
        } else {
            a - c
        },
{
    if a < c {
        vstd::arithmetic::div_mod::lemma_small_mod(a as nat, c as nat);
    } else {
        vstd::arithmetic::div_mod::lemma_mod_multiples_vanish(1, a - c, c);
        vstd::arithmetic::div_mod::lemma_small_mod((a - c) as nat, c as nat);
    }
}

/// Little-endian value of the 8 bytes of `e` starting at index `i`
/// (the producer convention for embedded millisecond timestamps).
pub open spec fn le_at(e: Seq<u8>, i: int, n: nat) -> nat
    decreases n,
{
    if n == 0 {
        0
    } else {
        (e[i] + 256 * le_at(e, i + 1, (n - 1) as nat)) as nat
    }
}

/// The embedded timestamp of a blob, read as a signed 64-bit value from its
/// first 8 bytes, little endian.
pub open spec fn embedded_ts(e: Seq<u8>) -> int {
    let raw = le_at(e, 0, 8);
    if raw < 0x8000_0000_0000_0000 {
        raw as int
    } else {
        raw - 0x1_0000_0000_0000_0000
    }
}

/// A blob is kept by a window of `seconds` around `now_ms` when it is long
/// enough to carry a timestamp and that timestamp is less than the window
/// length before `now_ms`.
pub open spec fn in_window(e: Seq<u8>, seconds: u64, now_ms: i64) -> bool {
    e.len() >= 8 && now_ms - embedded_ts(e) < seconds * 1000
}

/// The subsequence of `s` whose entries fall in the window, in order.
pub open spec fn window_filter(s: Seq<Seq<u8>>, seconds: u64, now_ms: i64) -> Seq<Seq<u8>>
    decreases s.len(),
{
    if s.len() == 0 {
        Seq::empty()
    } else {
        window_filter(s.drop_last(), seconds, now_ms) + if in_window(
            s.last(),
            seconds,
            now_ms,
        ) {
            seq![s.last()]
        } else {
            Seq::empty()
        }
    }
}

/// A ring buffer of owned event blobs with a fixed slot count.
pub struct RingBuffer {
    slots: Vec<Vec<u8>>,
    capacity: usize,
    write_index: usize,
    len: usize,
}

impl RingBuffer {
    /// Slot count, fixed at construction.
    pub closed spec fn cap(self) -> nat {
        self.capacity as nat
    }

    /// Slot index of the oldest retained blob.
    spec fn start(self) -> int {
        if self.len < self.capacity {
            0
        } else {
            self.write_index as int
        }
    }

    /// Structural invariant: the slot vector matches the capacity, the
    /// cursor is in range, and until the first wrap the cursor equals the
    /// occupancy.
    pub closed spec fn wf(self) -> bool {
        &&& self.slots@.len() == self.capacity
        &&& self.capacity >= 1
        &&& self.len <= self.capacity
        &&& self.write_index < self.capacity
        &&& (self.len < self.capacity ==> self.write_index == self.len)
    }

    /// The retained blobs in chronological order, oldest first.
    pub closed spec fn contents(self) -> Seq<Seq<u8>> {
        Seq::new(
            self.len as nat,
            |i: int| self.slots@[(self.start() + i) % (self.capacity as int)]@,
        )
    }

    /// Creates an empty ring with `capacity` slots; a degenerate capacity
    /// of zero is coerced to one slot.
    pub fn new(capacity: usize) -> (r: RingBuffer)
        ensures
            r.wf(),
            r.contents() == Seq::<Seq<u8>>::empty(),
            r.cap() == if capacity == 0 {
                1nat
            } else {
                capacity as nat
            },
    {
        let cap: usize = if capacity == 0 {
            1
        } else {
            capacity
        };
        let mut slots: Vec<Vec<u8>> = Vec::new();
        let mut i: usize = 0;
        while i < cap
            invariant
                slots@.len() == i,
                i <= cap,
            decreases cap - i,
        {
            slots.push(Vec::new());
            i = i + 1;
        }
        let r = RingBuffer { slots, capacity: cap, write_index: 0, len: 0 };
        proof {
            assert(r.contents() =~= Seq::<Seq<u8>>::empty());
        }
        r
    }

    /// Stores `data` at the cursor slot, advances the cursor modulo the
    /// capacity, and saturates the occupancy at the capacity: the newest
    /// blob is appended and, once full, the oldest is evicted.
    pub fn push(&mut self, data: Vec<u8>)
        requires
            old(self).wf(),
        ensures
            final(self).wf(),
            final(self).cap() == old(self).cap(),
            final(self).contents() == ring_push(old(self).contents(), old(self).cap(), data@),
    {
        let ghost pre = *self;
        let idx = self.write_index;
        self.slots[idx] = data;
        self.write_index = if idx + 1 == self.capacity {
            0
        } else {
            idx + 1
        };
        if self.len < self.capacity {
            self.len = self.len + 1;
        }
        proof {
            let c = pre.capacity as int;
            if pre.len < pre.capacity {
                // not yet full: the cursor equalled the occupancy, so the
                // blob lands right after the existing contents
                assert forall|i: int| 0 <= i < self.len implies self.contents()[i]
                    == ring_push(pre.contents(), pre.cap(), data@)[i] by {
                    assert(self.start() == 0);
                    lemma_wrap(i, c);
                    if i < pre.len {
                        assert(pre.contents()[i] == pre.slots@[i]@);
                    }
                }
                assert(self.contents() =~= ring_push(pre.contents(), pre.cap(), data@));
            } else {
                // full: the overwritten slot was the oldest entry, and the
                // remaining entries shift down by one
                assert forall|i: int| 0 <= i < self.len implies self.contents()[i]
                    == ring_push(pre.contents(), pre.cap(), data@)[i] by {
                    let s = self.start();
                    lemma_wrap(s + i, c);
                    lemma_wrap(idx + 1 + i, c);
                    assert((s + i) % c == (idx + 1 + i) % c);
                    if i < c - 1 {
                        assert((s + i) % c != idx);
                        assert(pre.contents()[i + 1] == pre.slots@[(idx + (i + 1)) % c]@);
                    } else {
                        assert((s + i) % c == idx);
                    }
                }
                assert(self.contents() =~= ring_push(pre.contents(), pre.cap(), data@));
            }
        }
    }

    /// Returns owned copies of the retained blobs, oldest first.
    pub fn dump(&self) -> (r: Vec<Vec<u8>>)
        requires
            self.wf(),
        ensures
            r.deep_view() == self.contents(),
    {
        let mut out: Vec<Vec<u8>> = Vec::new();
        let start: usize = if self.len < self.capacity {
            0
        } else {
            self.write_index
        };
        let mut idx: usize = start;
        let mut k: usize = 0;
        proof {
            lemma_wrap(self.start(), self.capacity as int);
        }
        while k < self.len
            invariant
                self.wf(),
                k <= self.len,
                start as int == self.start(),
                idx < self.capacity,
                idx as int == (self.start() + k) % (self.capacity as int),
                out@.len() == k,
                forall|i: int| 0 <= i < k ==> out@[i]@ == self.contents()[i],
            decreases self.len - k,
        {
            out.push(self.slots[idx].clone());
            proof {
                let c = self.capacity as int;
                assert(out@[k as int]@ == self.contents()[k as int]);
                lemma_wrap(self.start() + k, c);
                lemma_wrap(self.start() + k + 1, c);
            }
            idx = if idx + 1 == self.capacity {
                0
            } else {
                idx + 1
            };
            k = k + 1;
        }
        proof {
            assert(out.deep_view() =~~= self.contents());
        }
        out
    }

    /// Returns, oldest first, copies of the retained blobs whose embedded
    /// timestamp lies within `seconds` of `now_ms`; blobs shorter than 8
    /// bytes are silently excluded.
    pub fn dump_last_seconds(&self, seconds: u64, now_ms: i64) -> (r: Vec<Vec<u8>>)
        requires
            self.wf(),
        ensures
            r.deep_view() == window_filter(self.contents(), seconds, now_ms),
    {
        let all = self.dump();
        let mut out: Vec<Vec<u8>> = Vec::new();
        let mut k: usize = 0;
        while k < all.len()
            invariant
                all.deep_view() == self.contents(),
                k <= all@.len(),
                out.deep_view() == window_filter(self.contents().take(k as int), seconds, now_ms),
            decreases all@.len() - k,
        {
            let e = &all[k];
            proof {
                assert(self.contents().take(k as int + 1).drop_last() =~= self.contents().take(
                    k as int,
                ));
                assert(self.contents().take(k as int + 1).last() == e@);
            }
            let mut keep = false;
            if e.len() >= 8 {
                let raw: u64 = le8(e);
                let ts: i64 = if raw < 0x8000_0000_0000_0000u64 {
                    raw as i64
                } else {
                    -((u64::MAX - raw) as i64) - 1
                };
                proof {
                    assert(ts == embedded_ts(e@));
                }
                keep = (now_ms as i128) - (ts as i128) < (seconds as i128) * 1000;
                proof {
                    assert(keep == in_window(e@, seconds, now_ms));
                }
            }
            if keep {
                out.push(e.clone());
            }
            proof {
                assert(out.deep_view() =~~= window_filter(
                    self.contents().take(k as int + 1),
                    seconds,
                    now_ms,
                ));
            }
            k = k + 1;
        }
        proof {
            assert(self.contents().take(self.contents().len() as int) =~= self.contents());
        }
        out
    }
}

/// Reads the little-endian 64-bit value stored in the first 8 bytes of `e`.
fn le8(e: &Vec<u8>) -> (r: u64)
    requires
        e@.len() >= 8,
    ensures
        r == le_at(e@, 0, 8),
{
    let r: u64 = (e[0] as u64) + 256 * ((e[1] as u64) + 256 * ((e[2] as u64) + 256 * ((e[3]
        as u64) + 256 * ((e[4] as u64) + 256 * ((e[5] as u64) + 256 * ((e[6] as u64) + 256 * (e[7]
        as u64)))))));
    proof {
        reveal_with_fuel(le_at, 9);
    }
    r
}

/// After pushing the blobs `bs` in order into an empty ring of capacity
/// `c >= 1`, the contents are exactly the last `min(|bs|, c)` blobs in push
/// order: with `|bs| <= c` nothing is lost, and beyond that only the oldest
/// entries are evicted.
pub proof fn lemma_ring_push_all(c: nat, bs: Seq<Seq<u8>>)
    requires
        c >= 1,
    ensures
        ring_push_all(Seq::<Seq<u8>>::empty(), c, bs) == bs.skip(
            if bs.len() <= c {
                0
            } else {
                bs.len() - c
            },
        ),
    decreases bs.len(),
{
    if bs.len() == 0 {
        assert(ring_push_all(Seq::<Seq<u8>>::empty(), c, bs) =~= bs.skip(0));
    } else {
        lemma_ring_push_all(c, bs.drop_last());
        let prev = ring_push_all(Seq::<Seq<u8>>::empty(), c, bs.drop_last());
        if bs.len() - 1 <= c {
            assert(prev == bs.drop_last());
            if prev.len() < c {
                assert(bs.drop_last().push(bs.last()) =~= bs.skip(0));
            } else {
                assert(bs.drop_last().skip(1).push(bs.last()) =~= bs.skip(bs.len() - c));
            }
        } else {
            assert(prev == bs.drop_last().skip(bs.len() - 1 - c));
            assert(prev.len() == c);
            assert(prev.skip(1).push(bs.last()) =~= bs.skip(bs.len() - c));
        }
    }
}

} // verus!
