//! The web gateway's decisions: which WebSocket messages reach the jitter
//! buffer, and what each playout tick sends to the audio sink.
use crate::jitter_buffer::{JitterBuffer, Pop, PopModel};
use crate::protocol::{decode, decode_result, law_decode_of_encode, packet_bytes, Codec};
use crate::receiver::{samples_from_le, samples_of};
use vstd::prelude::*;

verus! {

/// Samples per 10 ms frame at 48 kHz.
pub const FRAME_SAMPLES: usize = 480;

/// Jitter-buffer room: reorder up to ~320 ms of packets.
pub const JB_CAPACITY: u32 = 32;

/// Jitter-buffer depth: hold ~30 ms (3 frames) to absorb network jitter.
pub const JB_TARGET_DEPTH: u32 = 3;

/// The sequence number and payload a message carries, when it is a PCM16
/// packet with a whole number of samples.
pub open spec fn ws_frame_model(buf: Seq<u8>) -> Option<(u32, Seq<u8>)> {
    match decode_result(buf) {
        Ok((h, p)) => if h.codec == Codec::Pcm16 && p.len() % 2 == 0 {
            Some((h.seq, p))
        } else {
            None
        },
        Err(_) => None,
    }
}

/// Every well-formed PCM16 packet whose payload holds whole samples is a
/// playable frame, whatever its size, carrying its own sequence number and
/// payload; packets of any other codec are not.
pub proof fn law_pcm16_packets_are_frames(
    codec: Codec,
    encrypted: bool,
    seq: u32,
    timestamp_us: u64,
    payload: Seq<u8>,
)
    requires
        payload.len() <= u16::MAX,
    ensures
        codec == Codec::Pcm16 && payload.len() % 2 == 0 ==> ws_frame_model(
            packet_bytes(codec, encrypted, seq, timestamp_us, payload),
        ) == Some((seq, payload)),
        codec != Codec::Pcm16 || payload.len() % 2 == 1 ==> ws_frame_model(
            packet_bytes(codec, encrypted, seq, timestamp_us, payload),
        ) is None,
{
    law_decode_of_encode(codec, encrypted, seq, timestamp_us, payload);
}

/// The playable frame a WebSocket message carries, if any.
pub fn ws_frame(buf: &[u8]) -> (r: Option<(u32, Vec<u8>)>)
    ensures
        match r {
            Some((seq, p)) => ws_frame_model(buf@) == Some((seq, p@)),
            None => ws_frame_model(buf@) is None,
        },
{
    let (header, payload) = match decode(buf) {
        Ok(v) => v,
        Err(_) => return None,
    };
    if header.codec == Codec::Pcm16 && crate::protocol::pcm16_sample_count(payload).is_some() {
        Some((header.seq, vstd::slice::slice_to_vec(payload)))
    } else {
        None
    }
}

/// Queue a WebSocket message in the jitter buffer by its sequence number.
/// Returns whether it was a playable frame and was handed to the buffer.
/// Sequence numbers within `capacity` of `u32::MAX` are outside what the
/// buffer supports (numbers do not wrap within a session) and are dropped.
pub fn accept_ws_frame(jb: &mut JitterBuffer, buf: &[u8]) -> (queued: bool)
    requires
        old(jb).wf(),
        old(jb)@.counters_fit(),
    ensures
        final(jb).wf(),
        match ws_frame_model(buf@) {
            Some((seq, p)) => if seq + old(jb)@.capacity < u32::MAX {
                queued && final(jb)@ == old(jb)@.insert_step(seq, p).0
            } else {
                !queued && final(jb)@ == old(jb)@
            },
            None => !queued && final(jb)@ == old(jb)@,
        },
{
    match ws_frame(buf) {
        Some((seq, payload)) => {
            if seq >= u32::MAX - jb.capacity() {
                return false;
            }
            let _ = jb.insert(seq, payload);
            true
        },
        None => false,
    }
}

/// What a playout step sends to the sink: the samples of a frame, a frame
/// of silence for a lost packet, nothing while priming or on underrun.
pub open spec fn playout_model(p: PopModel) -> Option<Seq<i16>> {
    match p {
        PopModel::Frame(bytes) => Some(samples_of(bytes)),
        PopModel::Conceal => Some(Seq::new(FRAME_SAMPLES as nat, |i: int| 0i16)),
        PopModel::Empty => None,
    }
}

/// One playout tick: drain one step of the jitter buffer.
pub fn playout_tick(jb: &mut JitterBuffer) -> (r: Option<Vec<i16>>)
    requires
        old(jb).wf(),
        old(jb)@.counters_fit(),
    ensures
        final(jb).wf(),
        final(jb)@ == old(jb)@.pop_step().0,
        match r {
            Some(v) => playout_model(old(jb)@.pop_step().1) == Some(v@),
            None => playout_model(old(jb)@.pop_step().1) is None,
        },
{
    match jb.pop() {
        Pop::Frame(bytes) => Some(samples_from_le(bytes.as_slice())),
        Pop::Conceal => {
            let mut silence: Vec<i16> = Vec::new();
            let mut i: usize = 0;
            while i < FRAME_SAMPLES
                invariant
                    0 <= i <= FRAME_SAMPLES,
                    silence@ == Seq::new(i as nat, |k: int| 0i16),
                decreases FRAME_SAMPLES - i,
            {
                silence.push(0);
                i = i + 1;
                proof {
                    assert(silence@ =~= Seq::new(i as nat, |k: int| 0i16));
                }
            }
            Some(silence)
        },
        Pop::Empty => None,
    }
}

} // verus!
