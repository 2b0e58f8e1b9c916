//! The core side of the core ↔ driver sample ring.
//!
//! [`Ring`] holds the fields of the driver's `ring.h` header and its sample
//! array. The producer (this side) stores samples, then advances
//! `write_index`; the consumer (the driver) reads from `read_index` up to
//! `write_index` and advances `read_index`. Both indices count every sample
//! ever written or read; a sample lives in slot `index % CAPACITY`.
use crate::jitter_buffer::{steps, lemma_dist_of_slot};
use vstd::prelude::*;

verus! {

/// Ring capacity in samples (1 s of mono 48 kHz).
pub const CAPACITY: usize = 48_000;

pub const SAMPLE_RATE: u32 = 48_000;

pub const CHANNELS: u32 = 1;

/// Layout/ABI version; both sides reject a mismatch during the handshake.
pub const ABI_VERSION: u32 = 1;

/// The header fields and samples of the shared ring.
pub struct Ring {
    pub abi_version: u32,
    pub capacity: u32,
    pub sample_rate: u32,
    pub channels: u32,
    /// Producer-owned: total samples ever written.
    pub write_index: u64,
    /// Consumer-owned: total samples ever read.
    pub read_index: u64,
    pub samples: [i16; CAPACITY],
}

/// The header this build expects.
pub open spec fn header_matches(r: &Ring) -> bool {
    &&& r.abi_version == ABI_VERSION
    &&& r.capacity == CAPACITY
    &&& r.sample_rate == SAMPLE_RATE
    &&& r.channels == CHANNELS
}

/// Samples written but not yet read, as the producer computes it (modulo 2^64).
pub open spec fn unread(write_index: u64, read_index: u64) -> u64 {
    if write_index >= read_index {
        (write_index - read_index) as u64
    } else {
        (write_index - read_index + 0x1_0000_0000_0000_0000) as u64
    }
}

/// The consumer has read no more than was written, and the unread samples fit.
pub open spec fn indices_consistent(write_index: u64, read_index: u64) -> bool {
    read_index <= write_index <= read_index + CAPACITY
}

/// How many of `len` offered samples a push accepts: as many as fit.
pub open spec fn accepted(write_index: u64, read_index: u64, len: nat) -> nat {
    let free = CAPACITY - (write_index - read_index);
    if len < free {
        len
    } else {
        free as nat
    }
}

/// The samples array after writing the first `n` of `data` from `write_index` on.
pub open spec fn written(old: Seq<i16>, write_index: int, data: Seq<i16>, n: int) -> Seq<i16> {
    Seq::new(
        old.len(),
        |j: int|
            if steps(write_index, j, CAPACITY as int) < n {
                data[steps(write_index, j, CAPACITY as int)]
            } else {
                old[j]
            },
    )
}

impl Ring {
    /// A ring as freshly mapped: every field and sample zero.
    pub fn zeroed() -> (r: Box<Ring>)
        ensures
            r.abi_version == 0 && r.capacity == 0 && r.sample_rate == 0 && r.channels == 0,
            r.write_index == 0 && r.read_index == 0,
            forall|i: int| 0 <= i < CAPACITY ==> #[trigger] r.samples@[i] == 0,
    {
        Box::new(
            Ring {
                abi_version: 0,
                capacity: 0,
                sample_rate: 0,
                channels: 0,
                write_index: 0,
                read_index: 0,
                samples: [0i16; 48000],
            },
        )
    }

    /// Initialise a freshly-mapped ring's header.
    pub fn init_header(&mut self)
        ensures
            header_matches(final(self)),
            final(self).write_index == 0,
            final(self).read_index == 0,
            final(self).samples == old(self).samples,
    {
        self.abi_version = ABI_VERSION;
        self.capacity = CAPACITY as u32;
        self.sample_rate = SAMPLE_RATE;
        self.channels = CHANNELS;
        self.write_index = 0;
        self.read_index = 0;
    }

    /// True if the header matches what this build expects.
    pub fn header_ok(&self) -> (ok: bool)
        ensures
            ok == header_matches(self),
    {
        self.abi_version == ABI_VERSION && self.capacity == CAPACITY as u32 && self.sample_rate
            == SAMPLE_RATE && self.channels == CHANNELS
    }
}

/// Writes as many of `data` as fit into the ring slots `buf`, from position
/// `write_index` on, never touching a slot whose sample is still unread.
/// Returns how many were written.
pub fn ring_write(buf: &mut [i16], write_index: u64, read_index: u64, data: &[i16]) -> (n: usize)
    requires
        old(buf)@.len() == CAPACITY,
        indices_consistent(write_index, read_index),
        write_index + accepted(write_index, read_index, data@.len()) <= u64::MAX,
    ensures
        n == accepted(write_index, read_index, data@.len()),
        final(buf)@ == written(old(buf)@, write_index as int, data@, n as int),
{
    let vacant = (CAPACITY as u64 - (write_index - read_index)) as usize;
    let n = if data.len() < vacant {
        data.len()
    } else {
        vacant
    };
    if n == 0 {
        proof {
            assert(buf@ =~= written(old(buf)@, write_index as int, data@, 0));
        }
        return 0;
    }
    let mut i: usize = 0;
    while i < n
        invariant
            0 <= i <= n,
            n <= data@.len(),
            n <= CAPACITY,
            buf@.len() == CAPACITY,
            write_index + n <= u64::MAX,
            buf@ == written(old(buf)@, write_index as int, data@, i as int),
        decreases n - i,
    {
        let slot = ((write_index + i as u64) % CAPACITY as u64) as usize;
        proof {
            lemma_dist_of_slot(write_index as int, i as int, CAPACITY as int);
        }
        buf[slot] = data[i];
        proof {
            assert forall|j: int| 0 <= j < CAPACITY implies #[trigger] buf@[j] == written(
                old(buf)@,
                write_index as int,
                data@,
                i + 1,
            )[j] by {
                vstd::arithmetic::div_mod::lemma_mod_bound(j - write_index, CAPACITY as int);
                if j != slot {
                    assert(steps(write_index as int, j, CAPACITY as int) != i);
                }
            }
            assert(buf@ =~= written(old(buf)@, write_index as int, data@, i + 1));
        }
        i = i + 1;
    }
    n
}

/// Writes PCM samples into a ring for the driver to consume.
pub struct Producer {
    ring: Box<Ring>,
}

impl Producer {
    /// The single producer of `ring`.
    pub fn new(ring: Box<Ring>) -> (p: Self)
        ensures
            p.ring_view() == *ring,
    {
        Producer { ring }
    }

    /// The ring this producer writes.
    pub closed spec fn ring_view(&self) -> Ring {
        *self.ring
    }

    /// The ring, for the reading side.
    pub fn ring(&self) -> (r: &Ring)
        ensures
            *r == self.ring_view(),
    {
        &self.ring
    }

    /// The ring, for the reading side to advance `read_index`.
    pub fn ring_mut(&mut self) -> (r: &mut Ring)
        ensures
            *r == old(self).ring_view(),
            final(self).ring_view() == *final(r),
    {
        &mut self.ring
    }

    /// Samples the consumer hasn't read yet (i.e. currently occupying the ring).
    pub fn occupied(&self) -> (n: u64)
        ensures
            n == unread(self.ring_view().write_index, self.ring_view().read_index),
    {
        let read = self.ring.read_index;
        let write = self.ring.write_index;
        write.wrapping_sub(read)
    }

    /// Free space in samples.
    pub fn vacant(&self) -> (n: u64)
        requires
            indices_consistent(self.ring_view().write_index, self.ring_view().read_index),
        ensures
            n == CAPACITY - (self.ring_view().write_index - self.ring_view().read_index),
    {
        CAPACITY as u64 - self.occupied()
    }

    /// Push as many of `samples` as fit; returns the count accepted. Fewer
    /// than `samples.len()` means the consumer is behind and the rest was
    /// dropped (real-time: never block the producer).
    pub fn push(&mut self, samples: &[i16]) -> (n: usize)
        requires
            indices_consistent(old(self).ring_view().write_index, old(self).ring_view().read_index),
            old(self).ring_view().write_index + accepted(
                old(self).ring_view().write_index,
                old(self).ring_view().read_index,
                samples@.len(),
            ) <= u64::MAX,
        ensures
            ({
                let before = old(self).ring_view();
                let after = final(self).ring_view();
                &&& n == accepted(before.write_index, before.read_index, samples@.len())
                &&& after.write_index == before.write_index + n
                &&& after.read_index == before.read_index
                &&& after.abi_version == before.abi_version
                &&& after.capacity == before.capacity
                &&& after.sample_rate == before.sample_rate
                &&& after.channels == before.channels
                &&& after.samples@ == written(
                    before.samples@,
                    before.write_index as int,
                    samples@,
                    n as int,
                )
            }),
    {
        let vacant = self.vacant() as usize;
        let n = if samples.len() < vacant {
            samples.len()
        } else {
            vacant
        };
        if n == 0 {
            return 0;
        }
        let write = self.ring.write_index;
        let read = self.ring.read_index;
        let written_count = ring_write(&mut self.ring.samples, write, read, samples);
        self.ring.write_index = write + written_count as u64;
        n
    }
}

/// What a push stores is what the consumer reads next, in order, and the
/// samples it had not read yet stay as they were; the ring never holds more
/// than its capacity.
pub proof fn law_push_then_read(
    old_samples: Seq<i16>,
    write_index: u64,
    read_index: u64,
    data: Seq<i16>,
)
    requires
        old_samples.len() == CAPACITY,
        indices_consistent(write_index, read_index),
    ensures
        ({
            let n = accepted(write_index, read_index, data.len());
            let new_samples = written(old_samples, write_index as int, data, n as int);
            &&& n <= data.len()
            &&& (write_index - read_index) + n <= CAPACITY
            &&& forall|t: int|
                0 <= t < n ==> #[trigger] new_samples[(write_index + t) % (CAPACITY as int)]
                    == data[t]
            &&& forall|t: int|
                0 <= t < write_index - read_index ==> #[trigger] new_samples[(read_index + t) % (
                CAPACITY as int)] == old_samples[(read_index + t) % (CAPACITY as int)]
        }),
{
    let n = accepted(write_index, read_index, data.len());
    let cap = CAPACITY as int;
    let new_samples = written(old_samples, write_index as int, data, n as int);
    assert forall|t: int| 0 <= t < n implies #[trigger] new_samples[(write_index + t) % cap]
        == data[t] by {
        lemma_dist_of_slot(write_index as int, t, cap);
    }
    assert forall|t: int| 0 <= t < write_index - read_index implies #[trigger] new_samples[(
    read_index + t) % cap] == old_samples[(read_index + t) % cap] by {
        let u = write_index - read_index;
        let j = (read_index + t) % cap;
        lemma_dist_of_slot(read_index as int, t, cap);
        // the slot of read + t lies cap - u + t steps ahead of the write position
        lemma_dist_of_slot(write_index as int, cap - u + t, cap);
        assert(write_index + (cap - u + t) == read_index + t + cap);
        vstd::arithmetic::div_mod::lemma_mod_add_multiples_vanish(read_index + t, cap);
        if steps(write_index as int, j, cap) < n {
            vstd::arithmetic::div_mod::lemma_mod_bound(j - write_index, cap);
            let k = steps(write_index as int, j, cap);
            lemma_dist_of_slot(write_index as int, k, cap);
            assert(k == cap - u + t);
        }
    }
}

} // verus!
