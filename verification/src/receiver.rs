//! What the PC receivers decide for each datagram: loss accounting, turning
//! PCM16 payloads into samples, decrypting encrypted payloads, and the
//! latency measurement.
use crate::crypto::{decrypt, derive_key, decrypt_result, key_of_pin};
use crate::protocol::{
    decode, decode_result, header_bytes, law_decode_of_encode, lemma_header_len, packet_bytes, Codec,
    PacketHeader, HEADER_LEN,
};
use vstd::prelude::*;

verus! {

// ---------------------------------------------------------------------------
// PCM16 samples
// ---------------------------------------------------------------------------

/// The signed 16-bit sample stored little-endian in bytes `lo`, `hi`.
pub open spec fn sample_of(lo: u8, hi: u8) -> i16 {
    let v = lo as int + 256 * hi as int;
    if v >= 0x8000 {
        (v - 0x10000) as i16
    } else {
        v as i16
    }
}

/// The samples carried by the whole byte pairs of `bytes` (a trailing odd
/// byte is not a sample).
pub open spec fn samples_of(bytes: Seq<u8>) -> Seq<i16> {
    Seq::new(bytes.len() / 2, |i: int| sample_of(bytes[2 * i], bytes[2 * i + 1]))
}

/// Decodes one little-endian sample.
pub fn sample_from_le(lo: u8, hi: u8) -> (s: i16)
    ensures
        s == sample_of(lo, hi),
{
    let v: i32 = lo as i32 + 256 * hi as i32;
    if v >= 0x8000 {
        (v - 0x10000) as i16
    } else {
        v as i16
    }
}

/// The samples of the whole byte pairs of `bytes`, in order.
pub fn samples_from_le(bytes: &[u8]) -> (out: Vec<i16>)
    ensures
        out@ == samples_of(bytes@),
{
    let len = bytes.len();
    let count = len / 2;
    let mut out: Vec<i16> = Vec::new();
    let mut i: usize = 0;
    while i < count
        invariant
            len == bytes@.len(),
            count == bytes@.len() / 2,
            0 <= i <= count,
            out@ == samples_of(bytes@).subrange(0, i as int),
        decreases count - i,
    {
        let s = sample_from_le(bytes[2 * i], bytes[2 * i + 1]);
        out.push(s);
        i = i + 1;
        proof {
            assert(out@ =~= samples_of(bytes@).subrange(0, i as int));
        }
    }
    proof {
        assert(samples_of(bytes@).subrange(0, i as int) =~= samples_of(bytes@));
    }
    out
}

/// Split a PCM16 payload into samples. `None` if the byte count is odd (a
/// partial sample means corruption).
pub fn pcm16_samples(payload: &[u8]) -> (r: Option<Vec<i16>>)
    ensures
        match r {
            Some(v) => payload@.len() % 2 == 0 && v@ == samples_of(payload@),
            None => payload@.len() % 2 == 1,
        },
{
    match crate::protocol::pcm16_sample_count(payload) {
        None => None,
        Some(_count) => Some(samples_from_le(payload)),
    }
}

/// The magnitude of a sample, saturating at `i16::MAX`.
pub open spec fn magnitude(s: i16) -> i16 {
    if s == i16::MIN {
        i16::MAX
    } else if s < 0 {
        (-s) as i16
    } else {
        s
    }
}

/// The largest magnitude among `samples` (zero for none).
pub open spec fn peak_of(samples: Seq<i16>) -> i16
    decreases samples.len(),
{
    if samples.len() == 0 {
        0
    } else {
        let rest = peak_of(samples.drop_last());
        let m = magnitude(samples.last());
        if m > rest {
            m
        } else {
            rest
        }
    }
}

/// The peak level is the largest saturating magnitude over every sample:
/// no sample's magnitude exceeds it, and it is zero (for no samples or only
/// silence) or the magnitude of one of the samples.
pub proof fn law_peak_is_largest_magnitude(samples: Seq<i16>)
    ensures
        0 <= peak_of(samples),
        forall|i: int|
            0 <= i < samples.len() ==> (if samples[i] < 0 {
                -(samples[i] as int)
            } else {
                samples[i] as int
            }) <= peak_of(samples) || peak_of(samples) == i16::MAX,
        peak_of(samples) == 0 || exists|i: int|
            0 <= i < samples.len() && (peak_of(samples) == samples[i] || peak_of(samples)
                == -(samples[i] as int) || (samples[i] == i16::MIN && peak_of(samples)
                == i16::MAX)),
    decreases samples.len(),
{
    if samples.len() > 0 {
        let rest = samples.drop_last();
        law_peak_is_largest_magnitude(rest);
        assert forall|i: int| 0 <= i < rest.len() implies #[trigger] rest[i] == samples[i] by {}
        let last = samples.len() - 1;
        assert(samples.last() == samples[last]);
        assert forall|i: int| 0 <= i < samples.len() implies (if samples[i] < 0 {
            -(samples[i] as int)
        } else {
            samples[i] as int
        }) <= peak_of(samples) || peak_of(samples) == i16::MAX by {
            if i < last {
                assert(rest[i] == samples[i]);
            }
        }
        if peak_of(samples) != 0 && peak_of(samples) == peak_of(rest) {
            let i = choose|i: int|
                0 <= i < rest.len() && (peak_of(rest) == rest[i] || peak_of(rest) == -(
                rest[i] as int) || (rest[i] == i16::MIN && peak_of(rest) == i16::MAX));
            assert(samples[i] == rest[i]);
        }
    }
}

/// The largest sample magnitude, saturating (as `i16::saturating_abs` does).
pub fn peak(samples: &[i16]) -> (p: i16)
    ensures
        p == peak_of(samples@),
{
    let mut p: i16 = 0;
    let mut i: usize = 0;
    while i < samples.len()
        invariant
            0 <= i <= samples@.len(),
            p == peak_of(samples@.subrange(0, i as int)),
        decreases samples@.len() - i,
    {
        let s = samples[i];
        let a: i16 = if s == i16::MIN {
            i16::MAX
        } else if s < 0 {
            -s
        } else {
            s
        };
        if a > p {
            p = a;
        }
        proof {
            assert(samples@.subrange(0, i + 1).drop_last() =~= samples@.subrange(0, i as int));
        }
        i = i + 1;
    }
    proof {
        assert(samples@.subrange(0, i as int) =~= samples@);
    }
    p
}

// ---------------------------------------------------------------------------
// Loss accounting
// ---------------------------------------------------------------------------

/// Update loss statistics from a newly received sequence number: a forward
/// gap counts as loss; reordered or duplicate packets that arrive behind the
/// expectation do not.
pub fn account_for_loss(seq: u32, expected: &mut Option<u32>, lost: &mut u64)
    requires
        *old(expected) matches Some(e) ==> (seq > e ==> *old(lost) + (seq - e) <= u64::MAX),
    ensures
        *final(lost) == *old(lost) + match *old(expected) {
            Some(exp) => if seq > exp {
                seq - exp
            } else {
                0
            },
            None => 0,
        },
        *final(expected) == Some(vstd::wrapping::u32_specs::wrapping_add(seq, 1)),
{
    if let Some(exp) = *expected {
        if seq > exp {
            *lost += (seq - exp) as u64;
        }
    }
    *expected = Some(seq.wrapping_add(1));
}

/// Whether the `malformed`-th malformed packet is logged: the first five,
/// then one in every thousand, so a noisy port cannot flood the log.
pub fn should_log_malformed(malformed: u64) -> (b: bool)
    ensures
        b == (malformed <= 5 || malformed % 1000 == 0),
{
    malformed <= 5 || malformed % 1000 == 0
}

/// Whether a phone counts as connected: some packet arrived, the last one
/// less than 1.5 s ago.
pub fn is_connected(packets: u64, now_ms: u64, last_packet_ms: u64) -> (b: bool)
    ensures
        b == (packets > 0 && (if now_ms >= last_packet_ms {
            now_ms - last_packet_ms
        } else {
            0
        }) < 1500),
{
    packets > 0 && now_ms.saturating_sub(last_packet_ms) < 1500
}

// ---------------------------------------------------------------------------
// Encrypted datagrams
// ---------------------------------------------------------------------------

/// The session key for the PIN last seen, recomputed only when the PIN changes.
pub struct KeyCache {
    pin: String,
    key: [u8; 32],
}

impl KeyCache {
    /// The cached key belongs to the cached PIN.
    pub closed spec fn wf(&self) -> bool {
        self.key@ == key_of_pin(self.pin@)
    }

    /// A cache holding the key of the empty PIN.
    pub fn new() -> (c: Self)
        ensures
            c.wf(),
    {
        let pin = String::new();
        let key = derive_key(pin.as_str());
        KeyCache { pin, key }
    }

    /// The key of `pin`.
    pub fn key_for(&mut self, pin: &str) -> (key: [u8; 32])
        requires
            old(self).wf(),
        ensures
            final(self).wf(),
            key@ == key_of_pin(pin@),
    {
        let wanted = pin.to_owned();
        if wanted != self.pin {
            self.key = derive_key(pin);
            self.pin = wanted;
        }
        self.key
    }
}

/// What a receiver does with one datagram.
pub enum Received {
    /// Playable PCM16 audio and its peak magnitude.
    Audio { samples: Vec<i16>, peak: i16 },
    /// An encrypted packet this end cannot decrypt: no PIN is set, or the
    /// PIN is wrong, or the packet was tampered with.
    Undecryptable,
    /// Not playable: malformed, not PCM16, or an odd number of bytes.
    Ignored,
}

/// The model of [`Received`].
pub enum ReceivedModel {
    Audio { samples: Seq<i16>, peak: i16 },
    Undecryptable,
    Ignored,
}

impl View for Received {
    type V = ReceivedModel;

    open spec fn view(&self) -> ReceivedModel {
        match self {
            Received::Audio { samples, peak } => ReceivedModel::Audio {
                samples: samples@,
                peak: *peak,
            },
            Received::Undecryptable => ReceivedModel::Undecryptable,
            Received::Ignored => ReceivedModel::Ignored,
        }
    }
}

/// Playable audio from decrypted or clear PCM bytes.
pub open spec fn audio_of(pcm: Seq<u8>) -> ReceivedModel {
    if pcm.len() % 2 != 0 {
        ReceivedModel::Ignored
    } else {
        ReceivedModel::Audio { samples: samples_of(pcm), peak: peak_of(samples_of(pcm)) }
    }
}

/// What one datagram yields for a receiver whose PIN is `pin` (empty: no
/// encryption). Encrypted payloads are authenticated against the 18 header
/// bytes and decrypted with the nonce of their `seq` and timestamp.
pub open spec fn received_model(buf: Seq<u8>, pin: Seq<char>) -> ReceivedModel {
    if buf.len() < HEADER_LEN {
        ReceivedModel::Ignored
    } else {
        match decode_result(buf) {
            Err(_) => ReceivedModel::Ignored,
            Ok((h, payload)) => if h.codec != Codec::Pcm16 {
                ReceivedModel::Ignored
            } else if !h.encrypted {
                audio_of(payload)
            } else if pin.len() == 0 {
                ReceivedModel::Undecryptable
            } else {
                match decrypt_result(
                    key_of_pin(pin),
                    buf.subrange(0, HEADER_LEN as int),
                    h.seq,
                    h.timestamp_us,
                    payload,
                ) {
                    None => ReceivedModel::Undecryptable,
                    Some(pcm) => audio_of(pcm),
                }
            },
        }
    }
}

/// Bytes into playable audio, as the receivers do after decryption.
fn audio_from(pcm: &[u8]) -> (r: Received)
    ensures
        r@ == audio_of(pcm@),
{
    if pcm.len() % 2 != 0 {
        return Received::Ignored;
    }
    let samples = samples_from_le(pcm);
    let p = peak(samples.as_slice());
    Received::Audio { samples, peak: p }
}

/// Handle one datagram as the desktop receiver does.
pub fn receive_datagram(buf: &[u8], pin: &str, keys: &mut KeyCache) -> (r: Received)
    requires
        old(keys).wf(),
    ensures
        final(keys).wf(),
        r@ == received_model(buf@, pin@),
{
    if buf.len() < HEADER_LEN {
        return Received::Ignored;
    }
    let header_bytes = vstd::slice::slice_subrange(buf, 0, HEADER_LEN);
    let (header, payload) = match decode(buf) {
        Ok(v) => v,
        Err(_) => return Received::Ignored,
    };
    if header.codec != Codec::Pcm16 {
        return Received::Ignored;
    }
    if header.encrypted {
        if pin.is_empty() {
            return Received::Undecryptable;
        }
        let key = keys.key_for(pin);
        proof {
            // the declared payload length is a 16-bit field
            crate::protocol::lemma_le_bytes_of_value(buf@.subrange(16, 18));
            crate::protocol::lemma_pow256_values();
        }
        match decrypt(&key, header_bytes, header.seq, header.timestamp_us, payload) {
            Some(pt) => audio_from(pt.as_slice()),
            None => Received::Undecryptable,
        }
    } else {
        audio_from(payload)
    }
}

/// What a receiver makes of a packet the phone framed: clear PCM16 is played
/// as sent; an encrypted one is undecryptable without a PIN, and otherwise
/// yields exactly what decrypting its payload under the PIN's key, with its
/// own header as associated data, gives; other codecs are ignored.
pub proof fn law_receive_of_framed_packet(
    codec: Codec,
    encrypted: bool,
    seq: u32,
    timestamp_us: u64,
    payload: Seq<u8>,
    pin: Seq<char>,
)
    requires
        payload.len() <= u16::MAX,
    ensures
        ({
            let buf = packet_bytes(codec, encrypted, seq, timestamp_us, payload);
            let header = header_bytes(codec, encrypted, seq, timestamp_us, payload.len() as u16);
            received_model(buf, pin) == if codec != Codec::Pcm16 {
                ReceivedModel::Ignored
            } else if !encrypted {
                audio_of(payload)
            } else if pin.len() == 0 {
                ReceivedModel::Undecryptable
            } else {
                match decrypt_result(key_of_pin(pin), header, seq, timestamp_us, payload) {
                    None => ReceivedModel::Undecryptable,
                    Some(pcm) => audio_of(pcm),
                }
            }
        }),
{
    let buf = packet_bytes(codec, encrypted, seq, timestamp_us, payload);
    let header = header_bytes(codec, encrypted, seq, timestamp_us, payload.len() as u16);
    law_decode_of_encode(codec, encrypted, seq, timestamp_us, payload);
    lemma_header_len(codec, encrypted, seq, timestamp_us, payload.len() as u16);
    assert(buf.subrange(0, HEADER_LEN as int) =~= header);
}

// ---------------------------------------------------------------------------
// Latency measurement
// ---------------------------------------------------------------------------

/// Running one-way latency measurement: loss, packets skipped for clock
/// skew, and the latency of each measured packet in microseconds.
pub struct Measurement {
    pub expected_seq: Option<u32>,
    pub lost: u64,
    pub skipped_clock: u64,
    pub latencies_us: Vec<u64>,
}

impl Measurement {
    /// An empty measurement.
    pub fn new() -> (m: Self)
        ensures
            m.expected_seq is None,
            m.lost == 0,
            m.skipped_clock == 0,
            m.latencies_us@ == Seq::<u64>::empty(),
    {
        Measurement { expected_seq: None, lost: 0, skipped_clock: 0, latencies_us: Vec::new() }
    }

    /// Account for one datagram received at `now_us` (microseconds on the
    /// same clock as the sender's stamps). Malformed datagrams are skipped;
    /// a stamp in the future counts as clock skew.
    pub fn record(&mut self, buf: &[u8], now_us: u64)
        requires
            decode_result(buf@) matches Ok((h, _)) ==> {
                &&& (old(self).expected_seq matches Some(e) ==> (h.seq > e ==> old(self).lost + (
                    h.seq - e) <= u64::MAX))
                &&& (now_us < h.timestamp_us ==> old(self).skipped_clock < u64::MAX)
            },
        ensures
            match decode_result(buf@) {
                Err(_) => *final(self) == *old(self),
                Ok((h, _)) => {
                    &&& final(self).expected_seq == Some(
                        vstd::wrapping::u32_specs::wrapping_add(h.seq, 1),
                    )
                    &&& final(self).lost == old(self).lost + match old(self).expected_seq {
                        Some(exp) => if h.seq > exp {
                            h.seq - exp
                        } else {
                            0
                        },
                        None => 0,
                    }
                    &&& if now_us >= h.timestamp_us {
                        &&& final(self).latencies_us@ == old(self).latencies_us@.push(
                            (now_us - h.timestamp_us) as u64,
                        )
                        &&& final(self).skipped_clock == old(self).skipped_clock
                    } else {
                        &&& final(self).latencies_us@ == old(self).latencies_us@
                        &&& final(self).skipped_clock == old(self).skipped_clock + 1
                    }
                },
            },
    {
        let header = match decode(buf) {
            Ok((h, _)) => h,
            Err(_) => return,
        };
        account_for_loss(header.seq, &mut self.expected_seq, &mut self.lost);
        if now_us >= header.timestamp_us {
            self.latencies_us.push(now_us - header.timestamp_us);
        } else {
            self.skipped_clock += 1;
        }
    }
}

} // verus!
