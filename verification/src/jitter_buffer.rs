//! Jitter buffer: reorder packets by sequence number and smooth network jitter
//! before the decoder, turning gaps into explicit conceal signals.
//!
//! # Model
//!
//! A fixed-size ring of `capacity` slots indexed by `seq % capacity`. The buffer
//! initially *primes* — accepting packets without emitting — until it holds
//! `target_depth` frames. After that, each [`JitterBuffer::pop`] advances the
//! play cursor by exactly one sequence number:
//!
//! - slot present  → [`Pop::Frame`] with the payload.
//! - slot missing but later frames are buffered → [`Pop::Conceal`].
//! - slot missing and nothing buffered → [`Pop::Empty`]: underrun. The cursor
//!   does not advance and the buffer re-primes.
//!
//! Before playout starts, an early packet is a reorder: it pulls the cursor
//! back, as long as it still fits the capacity window alongside what is
//! already queued. Late packets are dropped; duplicates are ignored; a large
//! forward jump slides the window, dropping the stale oldest frames.
//!
//! Sequence numbers are assumed not to wrap within a session: every inserted
//! `seq` stays more than `capacity` below `u32::MAX`.
use vstd::prelude::*;

verus! {

/// Outcome of inserting a packet.
#[derive(Debug, Clone, Copy, PartialEq, Eq, Structural)]
pub enum Insert {
    /// Stored in its slot, awaiting playout.
    Buffered,
    /// A packet with this `seq` was already buffered; ignored.
    Duplicate,
    /// `seq` was already played past; dropped.
    TooLate,
    /// `seq` was so far ahead it slid the window; `dropped` old frames were lost.
    Overflowed { dropped: u32 },
}

/// Outcome of a playout step.
#[derive(Debug, Clone, PartialEq, Eq)]
pub enum Pop {
    /// A frame is ready. Payload is the bytes handed to [`JitterBuffer::insert`].
    Frame(Vec<u8>),
    /// The next frame was lost; run packet-loss concealment.
    Conceal,
    /// Nothing to play yet (still priming, or an underrun). No cursor advance.
    Empty,
}

/// A playout outcome with the payload seen as a byte sequence.
pub enum PopModel {
    Frame(Seq<u8>),
    Conceal,
    Empty,
}

impl View for Pop {
    type V = PopModel;

    open spec fn view(&self) -> PopModel {
        match self {
            Pop::Frame(p) => PopModel::Frame(p@),
            Pop::Conceal => PopModel::Conceal,
            Pop::Empty => PopModel::Empty,
        }
    }
}

/// Running counters for the latency/quality report.
#[derive(Debug, Default, Clone, Copy, PartialEq, Eq, Structural)]
pub struct Stats {
    pub buffered: u64,
    pub duplicates: u64,
    pub too_late: u64,
    pub overflow_dropped: u64,
    pub emitted: u64,
    pub concealed: u64,
    pub underruns: u64,
}

/// The abstract state of a [`JitterBuffer`]: the ring of slots, the play
/// cursor and the counters.
pub struct JitterModel {
    pub slots: Seq<Option<Seq<u8>>>,
    /// The sequence number each queued frame arrived with (meaningful for
    /// occupied slots only).
    pub origin: Seq<u32>,
    pub capacity: u32,
    pub target_depth: u32,
    /// Sequence number of the next frame to emit; `None` until the first insert.
    pub next_seq: Option<u32>,
    /// Whether `target_depth` was reached and the buffer is emitting.
    pub primed: bool,
    /// Whether playout has ever begun.
    pub started: bool,
    pub stats: Stats,
}

/// How many steps forward lead from position `from` to slot `j` on a ring of
/// `cap` slots.
pub open spec fn steps(from: int, j: int, cap: int) -> int {
    (j - from) % cap
}

/// Number of occupied slots.
pub open spec fn occupied(slots: Seq<Option<Seq<u8>>>) -> nat
    decreases slots.len(),
{
    if slots.len() == 0 {
        0
    } else {
        occupied(slots.drop_last()) + if slots.last() is Some {
            1nat
        } else {
            0nat
        }
    }
}

/// The first sequence number `base + d`, `d` counting up from `d` to below
/// `cap`, whose slot is occupied.
pub open spec fn first_occupied(slots: Seq<Option<Seq<u8>>>, base: int, cap: int, d: int) -> Option<
    u32,
>
    decreases cap - d,
{
    if d < 0 || d >= cap {
        None
    } else if slots[(base + d) % cap] is Some {
        Some((base + d) as u32)
    } else {
        first_occupied(slots, base, cap, d + 1)
    }
}

impl JitterModel {
    /// Number of frames currently queued.
    pub open spec fn len(self) -> nat {
        occupied(self.slots)
    }

    /// The slot of a sequence number.
    pub open spec fn slot(self, seq: int) -> int {
        seq % (self.capacity as int)
    }

    /// How many cursor steps lead from sequence number `from` to slot `j`.
    pub open spec fn dist(self, from: int, j: int) -> int {
        steps(from, j, self.capacity as int)
    }

    /// Every counter still has room for one more operation.
    pub open spec fn counters_fit(self) -> bool {
        let limit = u64::MAX - u32::MAX;
        &&& self.stats.buffered <= limit
        &&& self.stats.duplicates <= limit
        &&& self.stats.too_late <= limit
        &&& self.stats.overflow_dropped <= limit
        &&& self.stats.emitted <= limit
        &&& self.stats.concealed <= limit
        &&& self.stats.underruns <= limit
    }

    /// What holds of every reachable state.
    pub open spec fn inv(self) -> bool {
        &&& self.capacity > 0
        &&& self.slots.len() == self.capacity
        &&& self.origin.len() == self.capacity
        &&& self.target_depth <= self.capacity
        &&& (self.next_seq is None ==> self.len() == 0)
        &&& (self.started ==> self.next_seq is Some)
        &&& (self.next_seq matches Some(n) ==> {
            &&& n + self.capacity <= u32::MAX
            &&& forall|j: int|
                0 <= j < self.capacity && #[trigger] self.slots[j] is Some ==> n + self.dist(n as int, j)
                    + self.capacity < u32::MAX
        })
        // every frame ever buffered is queued, played, or was dropped by a slide
        &&& self.stats.buffered == self.len() + self.stats.emitted + self.stats.overflow_dropped
    }

    /// Every queued frame lies exactly as many cursor steps ahead as its
    /// sequence number is ahead of the cursor, so it is played at its own
    /// sequence number.
    pub open spec fn aligned(self) -> bool {
        self.next_seq matches Some(n) ==> forall|j: int|
            0 <= j < self.capacity && #[trigger] self.slots[j] is Some ==> self.origin[j] == n
                + self.dist(n as int, j)
    }

    /// Every queued frame, counted from the cursor, lies less than a window
    /// ahead of `seq`: moving the cursor back to `seq` keeps all of them
    /// within the capacity window.
    pub open spec fn queue_fits_behind(self, seq: u32) -> bool {
        self.next_seq matches Some(n) ==> forall|j: int|
            0 <= j < self.capacity && #[trigger] self.slots[j] is Some ==> n + self.dist(n as int, j)
                < seq + self.capacity
    }

    /// The play cursor once a packet numbered `seq` arrives: the first packet
    /// sets it, and before playout starts an earlier packet pulls it back, as
    /// long as it still fits the capacity window alongside what is already
    /// queued.
    pub open spec fn cursor_on_arrival(self, seq: u32) -> u32 {
        match self.next_seq {
            None => seq,
            Some(n) => if !self.started && seq < n && n - seq < self.capacity
                && self.queue_fits_behind(seq) {
                seq
            } else {
                n
            },
        }
    }

    /// Stores `payload` in the slot of `seq`, unless that slot is taken
    /// (then it counts a duplicate). The flag says whether it was stored.
    pub open spec fn store(self, seq: u32, payload: Seq<u8>) -> (JitterModel, bool) {
        let j = self.slot(seq as int);
        if self.slots[j] is Some {
            (
                JitterModel {
                    stats: Stats { duplicates: (self.stats.duplicates + 1) as u64, ..self.stats },
                    ..self
                },
                false,
            )
        } else {
            (
                JitterModel {
                    slots: self.slots.update(j, Some(payload)),
                    origin: self.origin.update(j, seq),
                    stats: Stats { buffered: (self.stats.buffered + 1) as u64, ..self.stats },
                    ..self
                },
                true,
            )
        }
    }

    /// The slots with those of the `count` sequence numbers from `from` emptied.
    pub open spec fn cleared(self, from: int, count: int) -> Seq<Option<Seq<u8>>> {
        Seq::new(
            self.slots.len(),
            |j: int|
                if self.dist(from, j) < count {
                    None
                } else {
                    self.slots[j]
                },
        )
    }

    /// The state and outcome after inserting `payload` numbered `seq`.
    pub open spec fn insert_step(self, seq: u32, payload: Seq<u8>) -> (JitterModel, Insert) {
        let next = self.cursor_on_arrival(seq);
        let s1 = JitterModel { next_seq: Some(next), ..self };
        if seq < next {
            (
                JitterModel {
                    stats: Stats { too_late: (self.stats.too_late + 1) as u64, ..self.stats },
                    ..s1
                },
                Insert::TooLate,
            )
        } else if seq >= next + self.capacity {
            let new_next = seq - self.capacity + 1;
            let shift = if new_next - next < self.capacity {
                new_next - next
            } else {
                self.capacity as int
            };
            let slots2 = s1.cleared(next as int, shift);
            let dropped = s1.len() - occupied(slots2);
            let s2 = JitterModel {
                slots: slots2,
                next_seq: Some(new_next as u32),
                stats: Stats {
                    overflow_dropped: (self.stats.overflow_dropped + dropped) as u64,
                    ..self.stats
                },
                ..s1
            };
            let (s3, stored) = s2.store(seq, payload);
            if !stored {
                (s3, Insert::Duplicate)
            } else if dropped > 0 {
                (
                    JitterModel {
                        next_seq: first_occupied(s3.slots, new_next, self.capacity as int, 0),
                        ..s3
                    },
                    Insert::Overflowed { dropped: dropped as u32 },
                )
            } else {
                (s3, Insert::Buffered)
            }
        } else {
            let (s3, stored) = s1.store(seq, payload);
            (
                s3,
                if stored {
                    Insert::Buffered
                } else {
                    Insert::Duplicate
                },
            )
        }
    }

    /// The state and outcome after one playout step.
    pub open spec fn pop_step(self) -> (JitterModel, PopModel) {
        match self.next_seq {
            None => (self, PopModel::Empty),
            Some(next) => {
                if !self.primed && !(self.len() >= self.target_depth && self.len() > 0) {
                    (self, PopModel::Empty)
                } else {
                    let s = JitterModel { primed: true, ..self };
                    let j = s.slot(next as int);
                    match s.slots[j] {
                        Some(p) => (
                            JitterModel {
                                slots: s.slots.update(j, None),
                                next_seq: Some((next + 1) as u32),
                                started: true,
                                stats: Stats { emitted: (s.stats.emitted + 1) as u64, ..s.stats },
                                ..s
                            },
                            PopModel::Frame(p),
                        ),
                        None => if s.len() > 0 {
                            (
                                JitterModel {
                                    next_seq: Some((next + 1) as u32),
                                    started: true,
                                    stats: Stats {
                                        concealed: (s.stats.concealed + 1) as u64,
                                        ..s.stats
                                    },
                                    ..s
                                },
                                PopModel::Conceal,
                            )
                        } else {
                            (
                                JitterModel {
                                    primed: false,
                                    stats: Stats {
                                        underruns: (s.stats.underruns + 1) as u64,
                                        ..s.stats
                                    },
                                    ..s
                                },
                                PopModel::Empty,
                            )
                        },
                    }
                }
            },
        }
    }
}

/// The model of a payload slot.
pub open spec fn slot_view(o: Option<Vec<u8>>) -> Option<Seq<u8>> {
    match o {
        Some(v) => Some(v@),
        None => None,
    }
}

/// A fixed-capacity reorder + jitter-smoothing buffer.
pub struct JitterBuffer {
    slots: Vec<Option<Vec<u8>>>,
    origin: Ghost<Seq<u32>>,
    capacity: u32,
    target_depth: u32,
    next_seq: Option<u32>,
    len: u32,
    primed: bool,
    started: bool,
    stats: Stats,
}

impl View for JitterBuffer {
    type V = JitterModel;

    closed spec fn view(&self) -> JitterModel {
        JitterModel {
            slots: self.slots@.map_values(|o: Option<Vec<u8>>| slot_view(o)),
            origin: self.origin@,
            capacity: self.capacity,
            target_depth: self.target_depth,
            next_seq: self.next_seq,
            primed: self.primed,
            started: self.started,
            stats: self.stats,
        }
    }
}

impl JitterBuffer {
    /// The buffer is consistent with its model, and the model satisfies its
    /// invariant.
    pub closed spec fn wf(&self) -> bool {
        &&& self@.inv()
        &&& self@.aligned()
        &&& self.len == occupied(self@.slots)
    }

    /// A well-formed buffer's model satisfies the invariant and every queued
    /// frame sits where its own sequence number will be played.
    pub proof fn lemma_wf(&self)
        requires
            self.wf(),
        ensures
            self@.inv(),
            self@.aligned(),
    {
    }

    /// Create a buffer holding up to `capacity` frames, emitting only once
    /// `target_depth` frames are queued. `capacity == 0` and
    /// `target_depth > capacity` are programmer errors.
    pub fn new(capacity: u32, target_depth: u32) -> (jb: Self)
        requires
            capacity > 0,
            target_depth <= capacity,
        ensures
            jb.wf(),
            jb@.inv(),
            jb@.slots == Seq::new(capacity as nat, |i: int| None::<Seq<u8>>),
            jb@.capacity == capacity,
            jb@.target_depth == target_depth,
            jb@.next_seq is None,
            jb@.aligned(),
            !jb@.primed,
            !jb@.started,
            jb@.stats == (Stats {
                buffered: 0,
                duplicates: 0,
                too_late: 0,
                overflow_dropped: 0,
                emitted: 0,
                concealed: 0,
                underruns: 0,
            }),
    {
        let mut slots: Vec<Option<Vec<u8>>> = Vec::new();
        let mut i: u32 = 0;
        while i < capacity
            invariant
                i <= capacity,
                slots@.len() == i,
                forall|k: int| 0 <= k < i ==> slots@[k] is None,
            decreases capacity - i,
        {
            slots.push(None);
            i = i + 1;
        }
        let jb = JitterBuffer {
            slots,
            origin: Ghost(Seq::new(capacity as nat, |i: int| 0u32)),
            capacity,
            target_depth,
            next_seq: None,
            len: 0,
            primed: false,
            started: false,
            stats: Stats {
                buffered: 0,
                duplicates: 0,
                too_late: 0,
                overflow_dropped: 0,
                emitted: 0,
                concealed: 0,
                underruns: 0,
            },
        };
        proof {
            assert(jb@.slots =~= Seq::new(capacity as nat, |i: int| None::<Seq<u8>>));
            lemma_occupied_all_none(jb@.slots);
        }
        jb
    }

    /// Number of frames currently queued.
    pub fn len(&self) -> (n: u32)
        requires
            self.wf(),
        ensures
            n == self@.len(),
    {
        self.len
    }

    /// Whether no frame is queued.
    pub fn is_empty(&self) -> (b: bool)
        requires
            self.wf(),
        ensures
            b == (self@.len() == 0),
    {
        self.len == 0
    }

    /// The number of slots the buffer was made with.
    pub fn capacity(&self) -> (c: u32)
        ensures
            c == self@.capacity,
    {
        self.capacity
    }

    /// The running counters.
    pub fn stats(&self) -> (s: Stats)
        ensures
            s == self@.stats,
    {
        self.stats
    }

    fn slot_of(&self, seq: u32) -> (i: usize)
        requires
            self.capacity > 0,
        ensures
            i == seq % self.capacity,
    {
        (seq % self.capacity) as usize
    }

    /// Lowest sequence number currently buffered at or after the play
    /// cursor, or `None` if there is none.
    fn earliest_buffered(&self) -> (r: Option<u32>)
        requires
            self@.capacity > 0,
            self@.slots.len() == self@.capacity,
            self@.next_seq matches Some(n) && n + self@.capacity <= u32::MAX,
        ensures
            r == first_occupied(self@.slots, self@.next_seq->Some_0 as int, self@.capacity as int, 0),
    {
        let base = match self.next_seq {
            None => return None,
            Some(b) => b,
        };
        let mut i: u32 = 0;
        while i < self.capacity
            invariant
                self@.capacity > 0,
                self@.slots.len() == self@.capacity,
                self@.next_seq == Some(base),
                base + self@.capacity <= u32::MAX,
                0 <= i <= self@.capacity,
                first_occupied(self@.slots, base as int, self@.capacity as int, 0)
                    == first_occupied(self@.slots, base as int, self@.capacity as int, i as int),
            decreases self@.capacity - i,
        {
            let seq = base + i;
            let idx = self.slot_of(seq);
            if self.slots[idx].is_some() {
                return Some(seq);
            }
            i = i + 1;
        }
        None
    }

    /// Whether every queued frame lies less than a window ahead of `seq`,
    /// the cursor being at `n`.
    fn queue_fits_behind(&self, n: u32, seq: u32) -> (b: bool)
        requires
            self@.inv(),
            self@.next_seq == Some(n),
            seq < n,
            n - seq < self@.capacity,
        ensures
            b == self@.queue_fits_behind(seq),
    {
        let cap = self.capacity;
        let lim = (seq + cap) - n;
        let mut e: u32 = lim;
        while e < cap
            invariant
                self@.inv(),
                self@.next_seq == Some(n),
                cap == self@.capacity,
                self.slots@.len() == cap,
                lim == seq + cap - n,
                0 < lim <= e <= cap,
                forall|f: int| lim <= f < e ==> #[trigger] self@.slots[(n + f) % (cap as int)] is None,
            decreases cap - e,
        {
            let idx = ((n + e) % cap) as usize;
            if self.slots[idx].is_some() {
                proof {
                    lemma_dist_of_slot(n as int, e as int, cap as int);
                    assert(self@.slots[idx as int] is Some);
                }
                return false;
            }
            proof {
                assert(self@.slots[idx as int] is None);
            }
            e = e + 1;
        }
        proof {
            assert forall|j: int|
                0 <= j < cap && #[trigger] self@.slots[j] is Some implies n + self@.dist(n as int, j)
                < seq + cap by {
                let f = self@.dist(n as int, j);
                vstd::arithmetic::div_mod::lemma_mod_bound(j - n, cap as int);
                lemma_dist_of_slot(n as int, f, cap as int);
                if f >= lim {
                    assert(self@.slots[(n + f) % (cap as int)] is None);
                }
            }
        }
        true
    }

    /// Insert a received packet's payload under its sequence number.
    pub fn insert(&mut self, seq: u32, payload: Vec<u8>) -> (r: Insert)
        requires
            old(self).wf(),
            old(self)@.counters_fit(),
            seq + old(self)@.capacity < u32::MAX,
        ensures
            final(self).wf(),
            final(self)@.inv(),
            final(self)@.aligned(),
            (final(self)@, r) == old(self)@.insert_step(seq, payload@),
    {
        let ghost s0 = self@;
        proof {
            lemma_insert_keeps_inv(s0, seq, payload@);
            law_insert_keeps_alignment(s0, seq, payload@);
        }
        let next = match self.next_seq {
            None => {
                self.next_seq = Some(seq);
                seq
            },
            Some(n) => {
                if !self.started && seq < n && (n - seq) < self.capacity && self.queue_fits_behind(
                    n,
                    seq,
                ) {
                    self.next_seq = Some(seq);
                    seq
                } else {
                    n
                }
            },
        };
        let ghost s1 = self@;
        proof {
            assert(s1 == JitterModel { next_seq: Some(next), ..s0 });
            assert(next == s0.cursor_on_arrival(seq));
            lemma_inv_after_arrival(s0, seq);
        }
        if seq < next {
            self.stats.too_late += 1;
            return Insert::TooLate;
        }
        let mut overflow_dropped: u32 = 0;
        if seq >= next.wrapping_add(self.capacity) {
            let new_next = seq - self.capacity + 1;
            let gap = new_next - next;
            let shift = if gap < self.capacity {
                gap
            } else {
                self.capacity
            };
            let mut i: u32 = 0;
            while i < shift
                invariant
                    s1.inv(),
                    s1.next_seq == Some(next),
                    shift <= s1.capacity,
                    0 <= i <= shift,
                    next + s1.capacity <= u32::MAX,
                    self.capacity == s1.capacity,
                    self@.capacity == s1.capacity,
                    self@.target_depth == s1.target_depth,
                    self@.next_seq == s1.next_seq,
                    self@.primed == s1.primed,
                    self@.started == s1.started,
                    self@.stats == s1.stats,
                    self@.origin == s1.origin,
                    self.slots@.len() == s1.capacity,
                    self@.slots == s1.cleared(next as int, i as int),
                    self.len == occupied(self@.slots),
                    overflow_dropped + occupied(self@.slots) == s1.len(),
                    overflow_dropped <= i,
                decreases shift - i,
            {
                let idx = self.slot_of(next + i);
                let ghost before = self@.slots;
                proof {
                    lemma_dist_of_slot(next as int, i as int, s1.capacity as int);
                    lemma_occupied_bound(before);
                }
                if self.slots[idx].take().is_some() {
                    proof {
                        lemma_occupied_update(before, idx as int, None);
                    }
                    self.len -= 1;
                    overflow_dropped += 1;
                }
                proof {
                    lemma_occupied_update(before, idx as int, None);
                    assert(self@.slots =~= before.update(idx as int, None));
                    lemma_cleared_step(s1, next as int, i as int, idx as int);
                }
                i = i + 1;
            }
            self.next_seq = Some(new_next);
            self.stats.overflow_dropped += overflow_dropped as u64;
        }
        let ghost s2 = self@;
        let idx = self.slot_of(seq);
        if self.slots[idx].is_some() {
            self.stats.duplicates += 1;
            return Insert::Duplicate;
        }
        let ghost before = self@.slots;
        self.slots[idx] = Some(payload);
        self.origin = Ghost(self.origin@.update(idx as int, seq));
        proof {
            lemma_occupied_update(before, idx as int, Some(payload@));
            lemma_occupied_bound(before);
            assert(self@.slots =~= before.update(idx as int, Some(payload@)));
        }
        self.len += 1;
        self.stats.buffered += 1;
        if overflow_dropped > 0 {
            self.next_seq = self.earliest_buffered();
            Insert::Overflowed { dropped: overflow_dropped }
        } else {
            Insert::Buffered
        }
    }

    /// Advance playout by one step. See [`Pop`] for the three outcomes.
    pub fn pop(&mut self) -> (r: Pop)
        requires
            old(self).wf(),
            old(self)@.counters_fit(),
        ensures
            final(self).wf(),
            final(self)@.inv(),
            final(self)@.aligned(),
            (final(self)@, r@) == old(self)@.pop_step(),
    {
        proof {
            lemma_pop_keeps_inv(self@);
            law_pop_keeps_alignment(self@);
        }
        let next = match self.next_seq {
            None => return Pop::Empty,
            Some(n) => n,
        };
        if !self.primed {
            if self.len >= self.target_depth && self.len > 0 {
                self.primed = true;
            } else {
                return Pop::Empty;
            }
        }
        let idx = self.slot_of(next);
        let ghost before = self@.slots;
        if let Some(payload) = self.slots[idx].take() {
            proof {
                lemma_occupied_update(before, idx as int, None);
                assert(self@.slots =~= before.update(idx as int, None));
            }
            self.len -= 1;
            self.next_seq = Some(next.wrapping_add(1));
            self.started = true;
            self.stats.emitted += 1;
            Pop::Frame(payload)
        } else if self.len > 0 {
            proof {
                assert(self@.slots =~= before);
            }
            self.next_seq = Some(next.wrapping_add(1));
            self.started = true;
            self.stats.concealed += 1;
            Pop::Conceal
        } else {
            proof {
                assert(self@.slots =~= before);
            }
            self.primed = false;
            self.stats.underruns += 1;
            Pop::Empty
        }
    }
}

// ---------------------------------------------------------------------------
// Laws
// ---------------------------------------------------------------------------

/// Every frame the buffer ever accepted is still queued, was played, or was
/// dropped by a window slide; and the queue never exceeds the capacity.
pub proof fn law_frames_accounted(s: JitterModel)
    requires
        s.inv(),
    ensures
        s.stats.buffered == s.len() + s.stats.emitted + s.stats.overflow_dropped,
        s.len() <= s.capacity,
{
    lemma_occupied_bound(s.slots);
}

/// Each insertion is counted exactly once, as buffered, duplicate or late,
/// and a duplicate or late packet leaves the queued frames and the cursor as
/// they were.
pub proof fn law_insert_counted_once(s: JitterModel, seq: u32, payload: Seq<u8>)
    requires
        s.inv(),
        s.counters_fit(),
    ensures
        ({
            let (t, r) = s.insert_step(seq, payload);
            &&& t.stats.buffered + t.stats.duplicates + t.stats.too_late == s.stats.buffered
                + s.stats.duplicates + s.stats.too_late + 1
            &&& t.stats.emitted == s.stats.emitted
            &&& t.stats.concealed == s.stats.concealed
            &&& t.stats.underruns == s.stats.underruns
            &&& (r == Insert::TooLate ==> t.slots == s.slots && t.next_seq == s.next_seq)
            &&& (r == Insert::Buffered || r == Insert::Duplicate || r is Overflowed || r
                == Insert::TooLate)
        }),
{
}

/// Each playout step counts at most one emitted, concealed or underrun
/// frame; an `Empty` step never moves the cursor nor touches the queue.
pub proof fn law_pop_counted_once(s: JitterModel)
    requires
        s.inv(),
        s.counters_fit(),
    ensures
        ({
            let (t, r) = s.pop_step();
            &&& t.stats.emitted + t.stats.concealed + t.stats.underruns <= s.stats.emitted
                + s.stats.concealed + s.stats.underruns + 1
            &&& t.stats.buffered == s.stats.buffered
            &&& (r is Empty ==> t.next_seq == s.next_seq && t.slots == s.slots)
            &&& (r is Frame ==> t.stats.emitted == s.stats.emitted + 1 && t.len() + 1 == s.len())
            &&& (r is Conceal ==> t.stats.concealed == s.stats.concealed + 1 && t.len() == s.len())
        }),
{
    if let Some(n) = s.next_seq {
        let j0 = s.slot(n as int);
        if s.slots[j0] is Some {
            lemma_occupied_update(s.slots, j0, None);
        }
    }
}

/// A duplicate or late packet is discarded: only its counter moves, and the
/// queued frames, the cursor and the playout state stay as they were. A
/// duplicate really is a second copy of a queued sequence number.
pub proof fn law_discarded_changes_nothing(s: JitterModel, seq: u32, payload: Seq<u8>)
    requires
        s.inv(),
        s.aligned(),
        s.counters_fit(),
        seq + s.capacity < u32::MAX,
    ensures
        ({
            let (t, r) = s.insert_step(seq, payload);
            &&& (r == Insert::Duplicate ==> t == JitterModel {
                stats: Stats { duplicates: (s.stats.duplicates + 1) as u64, ..s.stats },
                ..s
            })
            &&& (r == Insert::Duplicate ==> (s.next_seq matches Some(n) && n <= seq < n + s.capacity
                && s.slots[s.slot(seq as int)] is Some && s.origin[s.slot(seq as int)] == seq))
            &&& (r == Insert::TooLate ==> t == JitterModel {
                stats: Stats { too_late: (s.stats.too_late + 1) as u64, ..s.stats },
                ..s
            })
        }),
{
    let cap = s.capacity as int;
    let next = s.cursor_on_arrival(seq);
    let s1 = JitterModel { next_seq: Some(next), ..s };
    let j0 = s.slot(seq as int);
    lemma_occupied_witness(s.slots);
    match s.next_seq {
        None => {
            // an empty buffer takes any first packet
            assert(s.slots[j0] is None);
        },
        Some(n) => {
            if next != n {
                lemma_pullback_slot_free(s, seq);
            } else if seq >= n && seq >= n + cap {
                let new_next = seq - cap + 1;
                let shift = if new_next - n < cap {
                    new_next - n
                } else {
                    cap
                };
                lemma_slide_slot_free(s1, n, seq, shift);
            } else if seq >= n && s.slots[j0] is Some {
                lemma_dist_of_slot(n as int, seq - n, cap);
                assert(seq as int == n + (seq - n));
            }
        },
    }
}

/// Before playout starts, an early packet is a reorder, not a loss: when it
/// fits the capacity window alongside every queued frame it is buffered and
/// becomes the new play position; when it does not fit it is too late.
pub proof fn law_reorder_before_playout(s: JitterModel, seq: u32, payload: Seq<u8>)
    requires
        s.inv(),
        s.aligned(),
        s.counters_fit(),
        !s.started,
        s.next_seq matches Some(n) && seq < n,
    ensures
        ({
            let n = s.next_seq->Some_0;
            let (t, r) = s.insert_step(seq, payload);
            if n - seq < s.capacity && s.queue_fits_behind(seq) {
                &&& r == Insert::Buffered
                &&& t.next_seq == Some(seq)
                &&& t.len() == s.len() + 1
                &&& t.slots[s.slot(seq as int)] == Some(payload)
                &&& t.origin[s.slot(seq as int)] == seq
            } else {
                r == Insert::TooLate
            }
        }),
{
    let n = s.next_seq->Some_0;
    let cap = s.capacity as int;
    if n - seq < s.capacity && s.queue_fits_behind(seq) {
        lemma_pullback_slot_free(s, seq);
        vstd::arithmetic::div_mod::lemma_mod_bound(seq as int, cap);
        lemma_occupied_update(s.slots, s.slot(seq as int), Some(payload));
    }
}

/// A playout step gives nothing exactly when nothing is queued or the
/// buffer is still priming below its target depth. Such a step leaves the
/// queue and the cursor alone, and counts an underrun only when the buffer
/// had been playing (it then primes again).
pub proof fn law_pop_empty(s: JitterModel)
    requires
        s.inv(),
        s.counters_fit(),
    ensures
        ({
            let (t, r) = s.pop_step();
            &&& (r is Empty <==> (s.len() == 0 || (!s.primed && s.len() < s.target_depth)))
            &&& (r is Conceal ==> s.len() > 0)
            &&& (r is Empty ==> {
                &&& t.slots == s.slots
                &&& t.next_seq == s.next_seq
                &&& t.origin == s.origin
                &&& t.stats.underruns == s.stats.underruns + (if s.primed && s.next_seq is Some {
                    1int
                } else {
                    0int
                })
                &&& (s.primed && s.next_seq is Some ==> !t.primed)
            })
        }),
{
    lemma_occupied_witness(s.slots);
    if let Some(n) = s.next_seq {
        let j0 = s.slot(n as int);
        vstd::arithmetic::div_mod::lemma_mod_bound(n as int, s.capacity as int);
        if s.slots[j0] is Some {
            assert(s.len() > 0);
        }
    }
}

/// No counter ever goes down. An insertion moves exactly one of the
/// buffered, duplicate and late counters, and adds to the slide counter
/// exactly the frames an `Overflowed` reports; a playout step counts an
/// emitted frame exactly when it plays one, a concealment exactly when it
/// conceals, and leaves the insertion counters alone.
pub proof fn law_stats_monotone(s: JitterModel, seq: u32, payload: Seq<u8>)
    requires
        s.inv(),
        s.aligned(),
        s.counters_fit(),
        seq + s.capacity < u32::MAX,
    ensures
        ({
            let (t, r) = s.insert_step(seq, payload);
            &&& t.stats.buffered >= s.stats.buffered
            &&& t.stats.duplicates >= s.stats.duplicates
            &&& t.stats.too_late >= s.stats.too_late
            &&& t.stats.buffered + t.stats.duplicates + t.stats.too_late == s.stats.buffered
                + s.stats.duplicates + s.stats.too_late + 1
            &&& (t.stats.buffered == s.stats.buffered + 1 <==> (r == Insert::Buffered
                || r is Overflowed))
            &&& (t.stats.duplicates == s.stats.duplicates + 1 <==> r == Insert::Duplicate)
            &&& (t.stats.too_late == s.stats.too_late + 1 <==> r == Insert::TooLate)
            &&& t.stats.overflow_dropped == s.stats.overflow_dropped + match r {
                Insert::Overflowed { dropped } => dropped as int,
                _ => 0int,
            }
            &&& t.stats.emitted == s.stats.emitted
            &&& t.stats.concealed == s.stats.concealed
            &&& t.stats.underruns == s.stats.underruns
        }),
        ({
            let (t, r) = s.pop_step();
            &&& t.stats.buffered == s.stats.buffered
            &&& t.stats.duplicates == s.stats.duplicates
            &&& t.stats.too_late == s.stats.too_late
            &&& t.stats.overflow_dropped == s.stats.overflow_dropped
            &&& t.stats.emitted == s.stats.emitted + (if r is Frame {
                1int
            } else {
                0int
            })
            &&& t.stats.concealed == s.stats.concealed + (if r is Conceal {
                1int
            } else {
                0int
            })
            &&& t.stats.underruns >= s.stats.underruns
            &&& t.stats.underruns <= s.stats.underruns + 1
        }),
{
    law_discarded_changes_nothing(s, seq, payload);
    let cap = s.capacity as int;
    let next = s.cursor_on_arrival(seq);
    if seq >= next && seq >= next + cap {
        let s1 = JitterModel { next_seq: Some(next), ..s };
        let new_next = seq - cap + 1;
        let shift = if new_next - next < cap {
            new_next - next
        } else {
            cap
        };
        let slots2 = s1.cleared(next as int, shift);
        lemma_occupied_subset(s1.slots, slots2);
        lemma_occupied_bound(s1.slots);
        let s2 = JitterModel {
            slots: slots2,
            next_seq: Some(new_next as u32),
            stats: Stats {
                overflow_dropped: (s.stats.overflow_dropped + (s1.len() - occupied(slots2))) as u64,
                ..s.stats
            },
            ..s1
        };
        vstd::arithmetic::div_mod::lemma_mod_bound(seq as int, cap);
        lemma_slide_slot_free(s1, next, seq, shift);
        assert(s2.slots[s2.slot(seq as int)] is None);
    }
}

/// Once a frame has been played, every later packet numbered at or below it
/// is too late and changes nothing but the late counter.
pub proof fn law_played_past_is_late(s: JitterModel, seq: u32, payload: Seq<u8>)
    requires
        s.started,
        s.next_seq matches Some(n) && seq < n,
    ensures
        s.insert_step(seq, payload) == (
            JitterModel {
                stats: Stats { too_late: (s.stats.too_late + 1) as u64, ..s.stats },
                ..s
            },
            Insert::TooLate,
        ),
{
}

/// One operation on the buffer: an insertion or a playout step.
pub enum Step {
    Insert(u32, Seq<u8>),
    Pop,
}

/// The state after one operation.
pub open spec fn after_step(s: JitterModel, op: Step) -> JitterModel {
    match op {
        Step::Insert(seq, payload) => s.insert_step(seq, payload).0,
        Step::Pop => s.pop_step().0,
    }
}

/// The sequence numbers at which one operation plays a frame.
pub open spec fn played_by(s: JitterModel, op: Step) -> Seq<u32> {
    match op {
        Step::Pop => if s.pop_step().1 is Frame {
            seq![s.next_seq->Some_0]
        } else {
            Seq::empty()
        },
        Step::Insert(_, _) => Seq::empty(),
    }
}

/// The sequence numbers at which a run of operations plays frames, in order.
pub open spec fn played(s: JitterModel, ops: Seq<Step>) -> Seq<u32>
    decreases ops.len(),
{
    if ops.len() == 0 {
        Seq::empty()
    } else {
        played_by(s, ops[0]) + played(after_step(s, ops[0]), ops.drop_first())
    }
}

/// Every operation of the run finds room in the counters, and every packet
/// number stays a window below the top of the `u32` range.
pub open spec fn run_fits(s: JitterModel, ops: Seq<Step>) -> bool
    decreases ops.len(),
{
    if ops.len() == 0 {
        true
    } else {
        &&& s.counters_fit()
        &&& (ops[0] matches Step::Insert(seq, _) ==> seq + s.capacity < u32::MAX)
        &&& run_fits(after_step(s, ops[0]), ops.drop_first())
    }
}

/// Over any run of insertions and playout steps, frames are played at
/// strictly increasing sequence numbers, each at its own number, so no frame
/// is played twice and none out of order; once playout has started, nothing
/// is played below the cursor.
pub proof fn law_played_in_order(s: JitterModel, ops: Seq<Step>)
    requires
        s.inv(),
        s.aligned(),
        run_fits(s, ops),
    ensures
        forall|i: int, k: int|
            0 <= i < k < played(s, ops).len() ==> played(s, ops)[i] < played(s, ops)[k],
        s.started ==> forall|i: int|
            0 <= i < played(s, ops).len() ==> played(s, ops)[i] >= s.next_seq->Some_0,
    decreases ops.len(),
{
    if ops.len() > 0 {
        let op = ops[0];
        let t = after_step(s, op);
        let rest = ops.drop_first();
        match op {
            Step::Insert(seq, payload) => {
                lemma_insert_keeps_inv(s, seq, payload);
                law_insert_keeps_alignment(s, seq, payload);
                if s.started {
                    law_cursor_monotone_after_start(s, seq, payload);
                }
            },
            Step::Pop => {
                lemma_pop_keeps_inv(s);
                law_pop_keeps_alignment(s);
            },
        }
        law_played_in_order(t, rest);
        let head = played_by(s, op);
        let tail = played(t, rest);
        assert(played(s, ops) == head + tail);
        if head.len() > 0 {
            assert(t.started && t.next_seq == Some((s.next_seq->Some_0 + 1) as u32));
            assert(s.next_seq->Some_0 + 1 <= u32::MAX);
        }
    }
}

/// A packet at least a window ahead of the cursor slides the window so that
/// it ends at that packet: exactly the queued frames numbered below the new
/// window are dropped, every other queued frame stays with its payload, the
/// packet is stored, and an `Overflowed` reports how many frames were lost.
pub proof fn law_slide_drops_only_stale(s: JitterModel, seq: u32, payload: Seq<u8>)
    requires
        s.inv(),
        s.aligned(),
        s.counters_fit(),
        seq + s.capacity < u32::MAX,
        s.next_seq matches Some(n) && seq >= n + s.capacity,
    ensures
        ({
            let start = seq - s.capacity + 1;
            let j0 = s.slot(seq as int);
            let (t, r) = s.insert_step(seq, payload);
            &&& t.slots[j0] == Some(payload)
            &&& t.origin[j0] == seq
            &&& forall|j: int|
                0 <= j < s.capacity && j != j0 ==> (#[trigger] t.slots[j] is Some <==> (
                s.slots[j] is Some && s.origin[j] >= start))
            &&& forall|j: int|
                0 <= j < s.capacity && #[trigger] s.slots[j] is Some && s.origin[j] >= start
                    ==> t.slots[j] == s.slots[j] && t.origin[j] == s.origin[j]
            &&& (r == Insert::Buffered || r is Overflowed)
            &&& (r == Insert::Buffered ==> t.len() == s.len() + 1)
            &&& (r matches Insert::Overflowed { dropped } ==> dropped + t.len() == s.len() + 1)
        }),
{
    let n = s.next_seq->Some_0;
    let cap = s.capacity as int;
    let start = seq - cap + 1;
    let j0 = s.slot(seq as int);
    let s1 = JitterModel { next_seq: Some(n), ..s };
    assert(s1 == s);
    let shift = if start - n < cap {
        start - n
    } else {
        cap
    };
    let slots2 = s1.cleared(n as int, shift);
    vstd::arithmetic::div_mod::lemma_mod_bound(seq as int, cap);
    lemma_slide_slot_free(s1, n, seq, shift);
    assert forall|j: int| 0 <= j < cap && #[trigger] s.slots[j] is Some implies (slots2[j] is Some
        <==> s.origin[j] >= start) by {
        vstd::arithmetic::div_mod::lemma_mod_bound(j - n, cap);
    }
    lemma_occupied_subset(s1.slots, slots2);
    lemma_occupied_bound(s1.slots);
    lemma_occupied_update(slots2, j0, Some(payload));
}

/// When an early packet pulls the cursor back, its slot is free: every
/// queued frame lies less than a window ahead of it.
proof fn lemma_pullback_slot_free(s: JitterModel, seq: u32)
    requires
        s.inv(),
        s.next_seq matches Some(n) && seq < n,
        s.queue_fits_behind(seq),
    ensures
        s.slots[s.slot(seq as int)] is None,
{
    let n = s.next_seq->Some_0;
    let cap = s.capacity as int;
    let j0 = s.slot(seq as int);
    vstd::arithmetic::div_mod::lemma_mod_bound(seq as int, cap);
    if s.slots[j0] is Some {
        let d = s.dist(n as int, j0);
        vstd::arithmetic::div_mod::lemma_mod_bound(j0 - n, cap);
        lemma_dist_of_slot(n as int, d, cap);
        let p = n + d;
        assert(p < seq + cap);
        assert(j0 == p % cap);
        vstd::arithmetic::div_mod::lemma_fundamental_div_mod(p, cap);
        vstd::arithmetic::div_mod::lemma_fundamental_div_mod(seq as int, cap);
        let qp = p / cap;
        let qs = seq as int / cap;
        assert(false) by (nonlinear_arith)
            requires
                p == cap * qp + j0,
                seq == cap * qs + j0,
                seq < p,
                p < seq + cap,
                cap > 0,
        ;
    }
}

/// After a slide towards a packet at least a window ahead, that packet's
/// slot has been cleared.
proof fn lemma_slide_slot_free(s1: JitterModel, n: u32, seq: u32, shift: int)
    requires
        s1.capacity > 0,
        s1.slots.len() == s1.capacity,
        s1.next_seq == Some(n),
        seq >= n + s1.capacity,
        shift == (if seq - s1.capacity + 1 - n < s1.capacity {
            seq - s1.capacity + 1 - n
        } else {
            s1.capacity as int
        }),
    ensures
        s1.cleared(n as int, shift)[s1.slot(seq as int)] is None,
{
    let cap = s1.capacity as int;
    let j0 = s1.slot(seq as int);
    vstd::arithmetic::div_mod::lemma_mod_bound(seq as int, cap);
    vstd::arithmetic::div_mod::lemma_mod_bound(j0 - n, cap);
    if shift < cap {
        let r = seq - n - cap;
        vstd::arithmetic::div_mod::lemma_fundamental_div_mod(seq as int, cap);
        let qs = seq as int / cap;
        assert(j0 - n == cap * (1 - qs) + r) by (nonlinear_arith)
            requires
                seq == cap * qs + j0,
                r == seq - n - cap,
        ;
        vstd::arithmetic::div_mod::lemma_fundamental_div_mod_converse(j0 - n, cap, 1 - qs, r);
    }
}

/// Nothing is played while the buffer is priming: below the target depth
/// (or with nothing queued) a step before priming is an `Empty` that changes
/// nothing.
pub proof fn law_priming_holds_playout(s: JitterModel)
    requires
        !s.primed,
        s.len() < s.target_depth || s.len() == 0,
    ensures
        s.pop_step() == (s, PopModel::Empty),
{
}

/// Once playout has started the cursor never moves backwards, so a packet
/// that was too late stays too late.
pub proof fn law_cursor_monotone_after_start(s: JitterModel, seq: u32, payload: Seq<u8>)
    requires
        s.inv(),
        s.started,
        seq + s.capacity < u32::MAX,
    ensures
        s.insert_step(seq, payload).0.started,
        s.insert_step(seq, payload).0.next_seq->Some_0 >= s.next_seq->Some_0,
        s.pop_step().0.started,
        s.pop_step().0.next_seq->Some_0 >= s.next_seq->Some_0,
{
    let cap = s.capacity as int;
    let n = s.next_seq->Some_0;
    if seq >= n && seq >= n + cap {
        let new_next = seq - cap + 1;
        let shift = if new_next - n < cap {
            new_next - n
        } else {
            cap
        };
        let s1 = JitterModel { next_seq: Some(n), ..s };
        let slots2 = s1.cleared(n as int, shift);
        let dropped = s1.len() - occupied(slots2);
        let s2 = JitterModel {
            slots: slots2,
            next_seq: Some(new_next as u32),
            stats: Stats {
                overflow_dropped: (s.stats.overflow_dropped + dropped) as u64,
                ..s.stats
            },
            ..s1
        };
        let (s3, stored) = s2.store(seq, payload);
        lemma_first_occupied(s3.slots, new_next, cap, 0);
        if stored {
            let j0 = s3.slot(seq as int);
            lemma_dist_of_slot(new_next, cap - 1, cap);
            assert(seq as int == new_next + (cap - 1));
            assert(s3.slots[j0] is Some);
            if first_occupied(s3.slots, new_next, cap, 0) is None {
                assert(s3.slots[(new_next + (cap - 1)) % cap] is None);
            }
        }
    }
}

/// Inserting a packet that was just buffered again is ignored as a
/// duplicate: only the duplicate counter changes.
pub proof fn law_duplicate_ignored(s: JitterModel, seq: u32, first: Seq<u8>, again: Seq<u8>)
    requires
        s.inv(),
        s.counters_fit(),
        seq + s.capacity < u32::MAX,
        s.insert_step(seq, first).1 == Insert::Buffered,
    ensures
        ({
            let t = s.insert_step(seq, first).0;
            t.insert_step(seq, again) == (
                JitterModel {
                    stats: Stats { duplicates: (t.stats.duplicates + 1) as u64, ..t.stats },
                    ..t
                },
                Insert::Duplicate,
            )
        }),
{
    let t = s.insert_step(seq, first).0;
    let cap = s.capacity as int;
    let next = s.cursor_on_arrival(seq);
    assert(t.next_seq is Some);
    assert(t.slots[t.slot(seq as int)] is Some);
    let u = JitterModel { next_seq: Some(t.cursor_on_arrival(seq)), ..t };
    assert(u == t);
}

/// A packet that arrives for the cursor's own, empty slot of a primed buffer
/// is the very next frame played.
pub proof fn law_frame_at_cursor_plays_next(s: JitterModel, payload: Seq<u8>)
    requires
        s.inv(),
        s.primed,
        s.next_seq matches Some(n) && s.slots[s.slot(n as int)] is None && n + s.capacity
            < u32::MAX,
    ensures
        ({
            let n = s.next_seq->Some_0;
            let (t, r) = s.insert_step(n, payload);
            &&& r == Insert::Buffered
            &&& t.pop_step().1 == PopModel::Frame(payload)
            &&& t.pop_step().0.next_seq == Some((n + 1) as u32)
        }),
{
}

/// In an aligned buffer, every frame played is the one that arrived with the
/// cursor's sequence number.
pub proof fn law_frame_plays_at_its_number(s: JitterModel)
    requires
        s.inv(),
        s.aligned(),
        s.pop_step().1 is Frame,
    ensures
        s.next_seq matches Some(n) && s.origin[s.slot(n as int)] == n && s.pop_step().1
            == PopModel::Frame(s.slots[s.slot(n as int)]->Some_0),
{
    let n = s.next_seq->Some_0;
    lemma_dist_of_slot(n as int, 0, s.capacity as int);
    assert(n as int + 0 == n as int);
}

/// Playout keeps a buffer aligned.
pub proof fn law_pop_keeps_alignment(s: JitterModel)
    requires
        s.inv(),
        s.aligned(),
    ensures
        s.pop_step().0.aligned(),
{
    let cap = s.capacity as int;
    if let Some(n) = s.next_seq {
        let j0 = s.slot(n as int);
        lemma_dist_of_slot(n as int, 0, cap);
        assert(n as int + 0 == n as int);
        let t = s.pop_step().0;
        if t.next_seq != s.next_seq {
            assert forall|j: int| 0 <= j < cap && #[trigger] t.slots[j] is Some implies t.origin[j]
                == (n + 1) + t.dist(n + 1, j) by {
                assert(s.slots[j] is Some);
                vstd::arithmetic::div_mod::lemma_mod_bound(j - n, cap);
                assert(s.dist(n as int, j) != 0);
                lemma_mod_shift_forward(j - n, 1, cap);
                assert(j - (n + 1) == (j - n) - 1);
            }
        }
    }
}

/// Insertion keeps a buffer aligned.
pub proof fn law_insert_keeps_alignment(s: JitterModel, seq: u32, payload: Seq<u8>)
    requires
        s.inv(),
        s.aligned(),
        seq + s.capacity < u32::MAX,
    ensures
        s.insert_step(seq, payload).0.aligned(),
{
    let cap = s.capacity as int;
    let next = s.cursor_on_arrival(seq);
    let s1 = JitterModel { next_seq: Some(next), ..s };
    lemma_occupied_witness(s.slots);
    // the cursor set by the arrival keeps the buffer aligned
    assert(s1.aligned()) by {
        match s.next_seq {
            None => {
                assert forall|j: int| 0 <= j < cap && #[trigger] s1.slots[j] is Some implies s1.origin[j]
                    == next + s1.dist(next as int, j) by {
                    assert(s.slots[j] is None);
                }
            },
            Some(n) => {
                if next != n {
                    assert forall|j: int| 0 <= j < cap && #[trigger] s1.slots[j] is Some implies s1.origin[j]
                        == next + s1.dist(next as int, j) by {
                        assert(s.slots[j] is Some);
                        vstd::arithmetic::div_mod::lemma_mod_bound(j - n, cap);
                        lemma_mod_shift_back(j - n, n - seq, cap);
                        assert(j - seq == (j - n) + (n - seq));
                    }
                }
            },
        }
    }
    lemma_inv_after_arrival(s, seq);
    if seq < next {
    } else if seq >= next + cap {
        lemma_slide_keeps_inv(s1, next, seq);
        let new_next = seq - cap + 1;
        let shift = if new_next - next < cap {
            new_next - next
        } else {
            cap
        };
        let slots2 = s1.cleared(next as int, shift);
        let dropped = s1.len() - occupied(slots2);
        let s2 = JitterModel {
            slots: slots2,
            next_seq: Some(new_next as u32),
            stats: Stats {
                overflow_dropped: (s.stats.overflow_dropped + dropped) as u64,
                ..s.stats
            },
            ..s1
        };
        assert(s2.aligned()) by {
            assert forall|j: int| 0 <= j < cap && #[trigger] s2.slots[j] is Some implies s2.origin[j]
                == new_next + s2.dist(new_next, j) by {
                assert(s1.slots[j] is Some);
                vstd::arithmetic::div_mod::lemma_mod_bound(j - next, cap);
                lemma_mod_shift_forward(j - next, shift, cap);
                assert(j - new_next == (j - next) - shift);
            }
        }
        lemma_store_keeps_alignment(s2, seq, payload);
        let (s3, stored) = s2.store(seq, payload);
        if stored && dropped > 0 {
            lemma_first_occupied(s3.slots, new_next, cap, 0);
            let j0 = s3.slot(seq as int);
            lemma_dist_of_slot(new_next, cap - 1, cap);
            assert(seq as int == new_next + (cap - 1));
            assert(s3.slots[j0] is Some);
            if first_occupied(s3.slots, new_next, cap, 0) is None {
                assert(s3.slots[(new_next + (cap - 1)) % cap] is None);
            }
            let r = first_occupied(s3.slots, new_next, cap, 0)->Some_0;
            let d = r - new_next;
            let t = JitterModel { next_seq: Some(r), ..s3 };
            assert forall|j: int| 0 <= j < cap && #[trigger] t.slots[j] is Some implies t.origin[j]
                == r + t.dist(r as int, j) by {
                let e = s3.dist(new_next, j);
                vstd::arithmetic::div_mod::lemma_mod_bound(j - new_next, cap);
                lemma_dist_of_slot(new_next, e, cap);
                assert(j == (new_next + e) % cap);
                if e < d {
                    assert(s3.slots[(new_next + e) % cap] is None);
                }
                lemma_mod_shift_forward(j - new_next, d, cap);
                assert(j - r == (j - new_next) - d);
            }
        }
    } else {
        lemma_store_keeps_alignment(s1, seq, payload);
    }
}

/// Storing a frame in the cursor's window keeps a buffer aligned.
proof fn lemma_store_keeps_alignment(s: JitterModel, seq: u32, payload: Seq<u8>)
    requires
        s.inv(),
        s.aligned(),
        s.next_seq matches Some(n) && n <= seq < n + s.capacity,
    ensures
        s.store(seq, payload).0.aligned(),
{
    let n = s.next_seq->Some_0;
    let cap = s.capacity as int;
    let j0 = s.slot(seq as int);
    let t = s.store(seq, payload).0;
    lemma_dist_of_slot(n as int, seq - n, cap);
    assert(seq as int == n + (seq - n));
    assert forall|j: int| 0 <= j < cap && #[trigger] t.slots[j] is Some implies t.origin[j] == n
        + t.dist(n as int, j) by {
        if j != j0 || s.slots[j0] is Some {
            assert(s.slots[j] is Some);
        }
    }
}

// ---------------------------------------------------------------------------
// Lemmas about the slot ring
// ---------------------------------------------------------------------------

proof fn lemma_occupied_all_none(slots: Seq<Option<Seq<u8>>>)
    requires
        forall|j: int| 0 <= j < slots.len() ==> slots[j] is None,
    ensures
        occupied(slots) == 0,
    decreases slots.len(),
{
    if slots.len() > 0 {
        lemma_occupied_all_none(slots.drop_last());
    }
}

proof fn lemma_occupied_bound(slots: Seq<Option<Seq<u8>>>)
    ensures
        occupied(slots) <= slots.len(),
    decreases slots.len(),
{
    if slots.len() > 0 {
        lemma_occupied_bound(slots.drop_last());
    }
}

proof fn lemma_occupied_update(slots: Seq<Option<Seq<u8>>>, j: int, x: Option<Seq<u8>>)
    requires
        0 <= j < slots.len(),
    ensures
        occupied(slots.update(j, x)) + (if slots[j] is Some {
            1nat
        } else {
            0nat
        }) == occupied(slots) + (if x is Some {
            1nat
        } else {
            0nat
        }),
    decreases slots.len(),
{
    let u = slots.update(j, x);
    if j == slots.len() - 1 {
        assert(u.drop_last() =~= slots.drop_last());
    } else {
        assert(u.drop_last() =~= slots.drop_last().update(j, x));
        lemma_occupied_update(slots.drop_last(), j, x);
    }
}

/// A ring with frames has an occupied slot, and one without has none.
proof fn lemma_occupied_witness(slots: Seq<Option<Seq<u8>>>)
    ensures
        occupied(slots) > 0 ==> exists|j: int| 0 <= j < slots.len() && #[trigger] slots[j] is Some,
        occupied(slots) == 0 ==> forall|j: int| 0 <= j < slots.len() ==> #[trigger] slots[j] is None,
    decreases slots.len(),
{
    if slots.len() > 0 {
        let t = slots.drop_last();
        lemma_occupied_witness(t);
        if occupied(slots) > 0 {
            if slots.last() is Some {
                assert(slots[slots.len() - 1] is Some);
            } else {
                let j = choose|j: int| 0 <= j < t.len() && #[trigger] t[j] is Some;
                assert(slots[j] is Some);
            }
        }
        if occupied(slots) == 0 {
            assert forall|j: int| 0 <= j < slots.len() implies #[trigger] slots[j] is None by {
                if j < t.len() {
                    assert(t[j] is None);
                }
            }
        }
    }
}

/// The slot of `from + i` lies `i` steps from `from`, and no other slot does.
pub(crate) proof fn lemma_dist_of_slot(from: int, i: int, cap: int)
    requires
        cap > 0,
        0 <= i < cap,
    ensures
        0 <= (from + i) % cap < cap,
        steps(from, (from + i) % cap, cap) == i,
        forall|j: int| 0 <= j < cap && #[trigger] steps(from, j, cap) == i ==> j == (from + i) % cap,
{
    let idx = (from + i) % cap;
    let q = (from + i) / cap;
    vstd::arithmetic::div_mod::lemma_fundamental_div_mod(from + i, cap);
    assert(idx - from == (-q) * cap + i) by (nonlinear_arith)
        requires
            from + i == cap * q + idx,
    ;
    vstd::arithmetic::div_mod::lemma_fundamental_div_mod_converse(idx - from, cap, -q, i);
    assert forall|j: int| 0 <= j < cap && #[trigger] steps(from, j, cap) == i implies j == (from + i) % cap by {
        let q2 = (j - from) / cap;
        vstd::arithmetic::div_mod::lemma_fundamental_div_mod(j - from, cap);
        assert(from + i == (-q2) * cap + j) by (nonlinear_arith)
            requires
                j - from == cap * q2 + i,
        ;
        vstd::arithmetic::div_mod::lemma_fundamental_div_mod_converse(from + i, cap, -q2, j);
    }
}

proof fn lemma_cleared_step(s: JitterModel, from: int, i: int, idx: int)
    requires
        s.capacity > 0,
        s.slots.len() == s.capacity,
        0 <= i < s.capacity,
        idx == (from + i) % (s.capacity as int),
    ensures
        s.cleared(from, i).update(idx, None) =~= s.cleared(from, i + 1),
{
    lemma_dist_of_slot(from, i, s.capacity as int);
    let cap = s.capacity as int;
    assert forall|j: int| 0 <= j < cap implies #[trigger] s.cleared(from, i).update(idx, None)[j]
        == s.cleared(from, i + 1)[j] by {
        vstd::arithmetic::div_mod::lemma_mod_bound(j - from, cap);
        if j == idx {
        } else {
            assert(s.dist(from, j) != i);
        }
    }
}

/// Moving a point `k` steps back, with `k` below the ring size, never takes
/// it further than `k` steps from anything.
proof fn lemma_mod_shift_back(a: int, k: int, cap: int)
    requires
        cap > 0,
        0 <= k < cap,
    ensures
        (a + k) % cap <= a % cap + k,
        a % cap + k < cap ==> (a + k) % cap == a % cap + k,
{
    let r = a % cap;
    let q = a / cap;
    vstd::arithmetic::div_mod::lemma_fundamental_div_mod(a, cap);
    vstd::arithmetic::div_mod::lemma_mod_bound(a, cap);
    if r + k < cap {
        assert(a + k == q * cap + (r + k)) by (nonlinear_arith)
            requires
                a == cap * q + r,
        ;
        vstd::arithmetic::div_mod::lemma_fundamental_div_mod_converse(a + k, cap, q, r + k);
    } else {
        assert(a + k == (q + 1) * cap + (r + k - cap)) by (nonlinear_arith)
            requires
                a == cap * q + r,
        ;
        vstd::arithmetic::div_mod::lemma_fundamental_div_mod_converse(
            a + k,
            cap,
            q + 1,
            r + k - cap,
        );
    }
}

/// Moving a point `s` steps forward, when at least `s` steps separate it from
/// `j`, shortens the distance by exactly `s`.
proof fn lemma_mod_shift_forward(a: int, s: int, cap: int)
    requires
        cap > 0,
        0 <= s <= a % cap,
    ensures
        (a - s) % cap == a % cap - s,
{
    let r = a % cap;
    let q = a / cap;
    vstd::arithmetic::div_mod::lemma_fundamental_div_mod(a, cap);
    vstd::arithmetic::div_mod::lemma_mod_bound(a, cap);
    assert(a - s == q * cap + (r - s)) by (nonlinear_arith)
        requires
            a == cap * q + r,
    ;
    vstd::arithmetic::div_mod::lemma_fundamental_div_mod_converse(a - s, cap, q, r - s);
}

proof fn lemma_inv_after_arrival(s: JitterModel, seq: u32)
    requires
        s.inv(),
        seq + s.capacity < u32::MAX,
    ensures
        (JitterModel { next_seq: Some(s.cursor_on_arrival(seq)), ..s }).inv(),
{
    let t = JitterModel { next_seq: Some(s.cursor_on_arrival(seq)), ..s };
    let cap = s.capacity as int;
    lemma_occupied_witness(s.slots);
    match s.next_seq {
        None => {
            assert forall|j: int| 0 <= j < cap && #[trigger] t.slots[j] is Some implies seq
                + t.dist(seq as int, j) + cap < u32::MAX by {
                assert(s.slots[j] is None);
            }
        },
        Some(n) => {
            if s.cursor_on_arrival(seq) != n {
                assert forall|j: int| 0 <= j < cap && #[trigger] t.slots[j] is Some implies seq
                    + t.dist(seq as int, j) + cap < u32::MAX by {
                    assert(s.slots[j] is Some);
                    lemma_mod_shift_back(j - n, n - seq, cap);
                    assert(j - seq == (j - n) + (n - seq));
                }
            }
        },
    }
}

/// Emptying slots never adds frames.
proof fn lemma_occupied_subset(a: Seq<Option<Seq<u8>>>, b: Seq<Option<Seq<u8>>>)
    requires
        a.len() == b.len(),
        forall|j: int| 0 <= j < a.len() && #[trigger] b[j] is Some ==> b[j] == a[j],
    ensures
        occupied(b) <= occupied(a),
    decreases a.len(),
{
    if a.len() > 0 {
        let ta = a.drop_last();
        let tb = b.drop_last();
        assert forall|j: int| 0 <= j < ta.len() && #[trigger] tb[j] is Some implies tb[j] == ta[j] by {
            assert(b[j] is Some);
        }
        lemma_occupied_subset(ta, tb);
        if b.last() is Some {
            assert(b[b.len() - 1] is Some);
        }
    }
}

/// What the search for the earliest buffered frame finds.
proof fn lemma_first_occupied(slots: Seq<Option<Seq<u8>>>, base: int, cap: int, d: int)
    requires
        cap > 0,
        slots.len() == cap,
        0 <= d <= cap,
        0 <= base,
        base + cap <= u32::MAX + 1,
    ensures
        first_occupied(slots, base, cap, d) matches Some(r) ==> {
            &&& d <= r - base < cap
            &&& slots[(r as int) % cap] is Some
            &&& forall|e: int| d <= e < r - base ==> #[trigger] slots[(base + e) % cap] is None
        },
        first_occupied(slots, base, cap, d) is None ==> forall|e: int|
            d <= e < cap ==> #[trigger] slots[(base + e) % cap] is None,
    decreases cap - d,
{
    if d < cap {
        lemma_first_occupied(slots, base, cap, d + 1);
    }
}

/// Sliding the window forward keeps the invariant.
proof fn lemma_slide_keeps_inv(s1: JitterModel, next: u32, seq: u32)
    requires
        s1.inv(),
        s1.next_seq == Some(next),
        seq >= next + s1.capacity,
        seq + s1.capacity < u32::MAX,
    ensures
        ({
            let cap = s1.capacity as int;
            let new_next = seq - cap + 1;
            let shift = if new_next - next < cap {
                new_next - next
            } else {
                cap
            };
            let slots2 = s1.cleared(next as int, shift);
            let dropped = s1.len() - occupied(slots2);
            let s2 = JitterModel {
                slots: slots2,
                next_seq: Some(new_next as u32),
                stats: Stats {
                    overflow_dropped: (s1.stats.overflow_dropped + dropped) as u64,
                    ..s1.stats
                },
                ..s1
            };
            &&& 0 <= dropped <= cap
            &&& s2.inv()
        }),
{
    let cap = s1.capacity as int;
    let new_next = seq - cap + 1;
    let shift = if new_next - next < cap {
        new_next - next
    } else {
        cap
    };
    let slots2 = s1.cleared(next as int, shift);
    assert forall|j: int| 0 <= j < slots2.len() && #[trigger] slots2[j] is Some implies slots2[j]
        == s1.slots[j] by {}
    lemma_occupied_subset(s1.slots, slots2);
    lemma_occupied_bound(s1.slots);
    let dropped = s1.len() - occupied(slots2);
    let s2 = JitterModel {
        slots: slots2,
        next_seq: Some(new_next as u32),
        stats: Stats {
            overflow_dropped: (s1.stats.overflow_dropped + dropped) as u64,
            ..s1.stats
        },
        ..s1
    };
    assert forall|j: int| 0 <= j < cap && #[trigger] s2.slots[j] is Some implies new_next
        + s2.dist(new_next, j) + cap < u32::MAX by {
        assert(s1.slots[j] is Some);
        let e = s1.dist(next as int, j);
        vstd::arithmetic::div_mod::lemma_mod_bound(j - next, cap);
        assert(e >= shift);
        assert(shift < cap);
        lemma_mod_shift_forward(j - next, shift, cap);
        assert(j - new_next == (j - next) - shift);
    }
}

/// Every playout step keeps the invariant.
pub proof fn lemma_pop_keeps_inv(s: JitterModel)
    requires
        s.inv(),
    ensures
        s.pop_step().0.inv(),
{
    let cap = s.capacity as int;
    lemma_occupied_witness(s.slots);
    if let Some(n) = s.next_seq {
        let j0 = s.slot(n as int);
        lemma_dist_of_slot(n as int, 0, cap);
        assert(n as int + 0 == n as int);
        let t = s.pop_step().0;
        if (s.primed || (s.len() >= s.target_depth && s.len() > 0)) && s.slots[j0] is Some {
            lemma_occupied_update(s.slots, j0, None);
            assert forall|j: int| 0 <= j < cap && #[trigger] t.slots[j] is Some implies (n + 1)
                + t.dist(n + 1, j) + cap < u32::MAX by {
                assert(s.slots[j] is Some);
                assert(j != j0);
                vstd::arithmetic::div_mod::lemma_mod_bound(j - n, cap);
                assert(s.dist(n as int, j) != 0);
                lemma_mod_shift_forward(j - n, 1, cap);
                assert(j - (n + 1) == (j - n) - 1);
            }
        } else if (s.primed || (s.len() >= s.target_depth && s.len() > 0)) && s.len() > 0 {
            let w = choose|j: int| 0 <= j < s.slots.len() && #[trigger] s.slots[j] is Some;
            vstd::arithmetic::div_mod::lemma_mod_bound(w - n, cap);
            assert(s.dist(n as int, w) != 0);
            assert forall|j: int| 0 <= j < cap && #[trigger] t.slots[j] is Some implies (n + 1)
                + t.dist(n + 1, j) + cap < u32::MAX by {
                assert(s.slots[j] is Some);
                vstd::arithmetic::div_mod::lemma_mod_bound(j - n, cap);
                assert(s.dist(n as int, j) != 0);
                lemma_mod_shift_forward(j - n, 1, cap);
                assert(j - (n + 1) == (j - n) - 1);
            }
        }
    }
}

/// Every insertion keeps the invariant.
pub proof fn lemma_insert_keeps_inv(s: JitterModel, seq: u32, payload: Seq<u8>)
    requires
        s.inv(),
        s.counters_fit(),
        seq + s.capacity < u32::MAX,
    ensures
        s.insert_step(seq, payload).0.inv(),
{
    let cap = s.capacity as int;
    let next = s.cursor_on_arrival(seq);
    let s1 = JitterModel { next_seq: Some(next), ..s };
    lemma_inv_after_arrival(s, seq);
    if seq < next {
    } else if seq >= next + cap {
        lemma_slide_keeps_inv(s1, next, seq);
        let new_next = seq - cap + 1;
        let shift = if new_next - next < cap {
            new_next - next
        } else {
            cap
        };
        let slots2 = s1.cleared(next as int, shift);
        let dropped = s1.len() - occupied(slots2);
        let s2 = JitterModel {
            slots: slots2,
            next_seq: Some(new_next as u32),
            stats: Stats {
                overflow_dropped: (s.stats.overflow_dropped + dropped) as u64,
                ..s.stats
            },
            ..s1
        };
        lemma_store_keeps_inv(s2, seq, payload);
        let (s3, stored) = s2.store(seq, payload);
        if stored && dropped > 0 {
            lemma_first_occupied(s3.slots, new_next, cap, 0);
            let j0 = s3.slot(seq as int);
            lemma_dist_of_slot(new_next, cap - 1, cap);
            assert(seq as int == new_next + (cap - 1));
            assert(s3.slots[j0] is Some);
            if first_occupied(s3.slots, new_next, cap, 0) is None {
                assert(s3.slots[(new_next + (cap - 1)) % cap] is None);
            }
            let r = first_occupied(s3.slots, new_next, cap, 0)->Some_0;
            let d = r - new_next;
            let t = JitterModel { next_seq: Some(r), ..s3 };
            assert forall|j: int| 0 <= j < cap && #[trigger] t.slots[j] is Some implies r + t.dist(
                r as int,
                j,
            ) + cap < u32::MAX by {
                let e = s3.dist(new_next, j);
                vstd::arithmetic::div_mod::lemma_mod_bound(j - new_next, cap);
                lemma_dist_of_slot(new_next, e, cap);
                assert(j == (new_next + e) % cap);
                if e < d {
                    assert(s3.slots[(new_next + e) % cap] is None);
                }
                lemma_mod_shift_forward(j - new_next, d, cap);
                assert(j - r == (j - new_next) - d);
            }
        }
    } else {
        lemma_store_keeps_inv(s1, seq, payload);
    }
}

/// Storing a frame whose number lies in the cursor's window keeps the
/// invariant.
proof fn lemma_store_keeps_inv(s: JitterModel, seq: u32, payload: Seq<u8>)
    requires
        s.inv(),
        s.stats.buffered < u64::MAX,
        s.next_seq matches Some(n) && n <= seq < n + s.capacity,
        seq + s.capacity < u32::MAX,
    ensures
        s.store(seq, payload).0.inv(),
{
    let n = s.next_seq->Some_0;
    let cap = s.capacity as int;
    let j0 = s.slot(seq as int);
    let t = s.store(seq, payload).0;
    lemma_dist_of_slot(n as int, seq - n, cap);
    assert(seq as int == n + (seq - n));
    if s.slots[j0] is None {
        lemma_occupied_update(s.slots, j0, Some(payload));
        assert forall|j: int| 0 <= j < cap && #[trigger] t.slots[j] is Some implies n + t.dist(
            n as int,
            j,
        ) + cap < u32::MAX by {
            if j != j0 {
                assert(s.slots[j] is Some);
            }
        }
    }
}

} // verus!
