//! Framing for noise suppression.
//!
//! RNNoise works on fixed 480-sample (10 ms @ 48 kHz) frames. Packets may
//! carry any number of samples, so incoming samples are queued and handed on
//! one whole frame at a time; the extra latency is bounded by one frame.
use vstd::prelude::*;

verus! {

/// Samples per noise-suppression frame.
pub const FRAME_SIZE: usize = 480;

/// The whole frames at the front of `all`, in order.
pub open spec fn frames_of(all: Seq<i16>) -> Seq<Seq<i16>> {
    Seq::new(
        all.len() / (FRAME_SIZE as nat),
        |k: int| all.subrange(k * FRAME_SIZE, k * FRAME_SIZE + FRAME_SIZE),
    )
}

/// What is left of `all` after its whole frames.
pub open spec fn remainder_of(all: Seq<i16>) -> Seq<i16> {
    all.subrange((all.len() / (FRAME_SIZE as nat)) * FRAME_SIZE, all.len() as int)
}

/// Samples queued until a whole frame is available.
pub struct FrameQueue {
    pending: Vec<i16>,
}

impl FrameQueue {
    /// The queued samples, oldest first.
    pub closed spec fn pending_view(&self) -> Seq<i16> {
        self.pending@
    }

    /// An empty queue.
    pub fn new() -> (q: Self)
        ensures
            q.pending_view() == Seq::<i16>::empty(),
    {
        FrameQueue { pending: Vec::new() }
    }

    /// Number of samples waiting for a whole frame.
    pub fn pending_len(&self) -> (n: usize)
        ensures
            n == self.pending_view().len(),
    {
        self.pending.len()
    }

    /// Queue `input` and take out every whole frame, oldest first; the
    /// samples that do not fill a frame stay queued.
    pub fn push(&mut self, input: &[i16]) -> (frames: Vec<Vec<i16>>)
        requires
            old(self).pending_view().len() + input@.len() <= usize::MAX,
        ensures
            frames@.len() == frames_of(old(self).pending_view() + input@).len(),
            forall|k: int|
                0 <= k < frames@.len() ==> #[trigger] frames@[k]@ == frames_of(
                    old(self).pending_view() + input@,
                )[k],
            final(self).pending_view() == remainder_of(old(self).pending_view() + input@),
    {
        let ghost all = self.pending@ + input@;
        let mut j: usize = 0;
        while j < input.len()
            invariant
                0 <= j <= input@.len(),
                all == old(self).pending@ + input@,
                self.pending@ == old(self).pending@ + input@.subrange(0, j as int),
            decreases input@.len() - j,
        {
            self.pending.push(input[j]);
            j = j + 1;
            proof {
                assert(self.pending@ =~= old(self).pending@ + input@.subrange(0, j as int));
            }
        }
        proof {
            assert(input@.subrange(0, j as int) =~= input@);
        }
        let total = self.pending.len();
        let mut frames: Vec<Vec<i16>> = Vec::new();
        let mut pos: usize = 0;
        while total - pos >= FRAME_SIZE
            invariant
                self.pending@ == all,
                total == all.len(),
                pos <= total,
                pos == frames@.len() * FRAME_SIZE,
                frames@.len() <= all.len() / (FRAME_SIZE as nat),
                forall|k: int|
                    0 <= k < frames@.len() ==> #[trigger] frames@[k]@ == frames_of(all)[k],
            decreases total - pos,
        {
            let mut frame: Vec<i16> = Vec::new();
            let mut t: usize = 0;
            while t < FRAME_SIZE
                invariant
                    self.pending@ == all,
                    total == all.len(),
                    pos + FRAME_SIZE <= total,
                    0 <= t <= FRAME_SIZE,
                    frame@ == all.subrange(pos as int, pos + t),
                decreases FRAME_SIZE - t,
            {
                frame.push(self.pending[pos + t]);
                t = t + 1;
                proof {
                    assert(frame@ =~= all.subrange(pos as int, pos + t));
                }
            }
            let ghost k = frames@.len();
            proof {
                assert(all.len() / (FRAME_SIZE as nat) >= k + 1) by (nonlinear_arith)
                    requires
                        pos == k * 480,
                        pos + 480 <= all.len(),
                ;
            }
            frames.push(frame);
            pos = pos + FRAME_SIZE;
        }
        proof {
            assert(frames@.len() == all.len() / (FRAME_SIZE as nat)) by (nonlinear_arith)
                requires
                    pos == frames@.len() * 480,
                    total - pos < 480,
                    pos <= total,
                    total == all.len(),
                    frames@.len() <= all.len() / 480,
            ;
        }
        let mut rest: Vec<i16> = Vec::new();
        let mut r: usize = pos;
        while r < total
            invariant
                self.pending@ == all,
                total == all.len(),
                pos <= r <= total,
                rest@ == all.subrange(pos as int, r as int),
            decreases total - r,
        {
            rest.push(self.pending[r]);
            r = r + 1;
            proof {
                assert(rest@ =~= all.subrange(pos as int, r as int));
            }
        }
        self.pending = rest;
        frames
    }
}

/// Framing loses and reorders nothing: the frames taken out, then the
/// samples left queued, are exactly the samples queued so far; fewer than a
/// frame stay queued, and each frame is whole.
pub proof fn law_framing_preserves_samples(all: Seq<i16>)
    ensures
        frames_of(all).flatten() + remainder_of(all) == all,
        remainder_of(all).len() < FRAME_SIZE,
        forall|k: int|
            0 <= k < frames_of(all).len() ==> #[trigger] frames_of(all)[k].len() == FRAME_SIZE,
{
    let n = all.len() / (FRAME_SIZE as nat);
    assert(n * 480 <= all.len() && all.len() - n * 480 < 480) by (nonlinear_arith)
        requires
            n == all.len() / 480,
    ;
    assert forall|k: int| 0 <= k < frames_of(all).len() implies #[trigger] frames_of(
        all,
    )[k].len() == FRAME_SIZE by {
        assert(k * 480 + 480 <= n * 480) by (nonlinear_arith)
            requires
                k < n,
        ;
    }
    lemma_flatten_prefix(all, n as int);
    assert(frames_of(all).subrange(0, n as int) =~= frames_of(all));
    assert(all.subrange(0, (n * 480) as int) + remainder_of(all) =~= all);
}

/// The first `m` frames, flattened, are the first `m * FRAME_SIZE` samples.
proof fn lemma_flatten_prefix(all: Seq<i16>, m: int)
    requires
        0 <= m <= all.len() / (FRAME_SIZE as nat),
    ensures
        frames_of(all).subrange(0, m).flatten() == all.subrange(0, m * FRAME_SIZE),
    decreases m,
{
    let n = all.len() / (FRAME_SIZE as nat);
    if m == 0 {
        assert(frames_of(all).subrange(0, 0) =~= Seq::<Seq<i16>>::empty());
        assert(all.subrange(0, 0) =~= Seq::<i16>::empty());
    } else {
        lemma_flatten_prefix(all, m - 1);
        let fs = frames_of(all).subrange(0, m);
        assert(fs.drop_last() =~= frames_of(all).subrange(0, m - 1));
        assert(m * 480 <= n * 480) by (nonlinear_arith)
            requires
                m <= n,
        ;
        assert(n * 480 <= all.len()) by (nonlinear_arith)
            requires
                n == all.len() / 480,
        ;
        vstd::seq_lib::lemma_flatten_concat(
            fs.drop_last(),
            seq![fs.last()],
        );
        assert(fs.drop_last() + seq![fs.last()] =~= fs);
        seq![fs.last()].lemma_flatten_one_element();
        assert(all.subrange(0, (m - 1) * 480) + all.subrange((m - 1) * 480, m * 480) =~= all.subrange(
            0,
            m * 480,
        ));
    }
}

} // verus!
