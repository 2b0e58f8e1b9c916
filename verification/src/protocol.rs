//! PhoneMic wire protocol: packet framing shared by the PC app and the phone.
//!
//! Every datagram is an 18-byte header followed by `payload_len` bytes:
//!
//! ```text
//! offset  size  field
//!   0      2    magic         u16   protocol identifier, reject anything else
//!   2      1    version       u8    protocol version
//!   3      1    codec         u8    0 = PCM16, 1 = Opus; bit 7 = encrypted
//!   4      4    seq           u32   monotonic sequence number
//!   8      8    timestamp_us  u64   capture timestamp, phone-side clock
//!  16      2    payload_len   u16   number of payload bytes that follow
//!  18    ...    payload
//! ```
//!
//! All multi-byte integers are little-endian.
use vstd::prelude::*;

verus! {

/// Protocol identifier. ASCII `"PM"` (0x50 0x4D) read little-endian.
pub const MAGIC: u16 = 0x4D50;

/// Current protocol version.
pub const PROTOCOL_VERSION: u8 = 1;

/// Size of the fixed packet header in bytes.
pub const HEADER_LEN: usize = 18;

/// Bit of the codec byte that marks an encrypted payload.
pub const ENCRYPTED_FLAG: u8 = 0x80;

/// Audio codec used for a packet's payload.
#[derive(Debug, Clone, Copy, PartialEq, Eq, Structural)]
pub enum Codec {
    /// Raw signed 16-bit PCM samples, little-endian.
    Pcm16,
    /// Opus-encoded frame.
    Opus,
}

/// Everything that can go wrong decoding a packet, or encoding into too small
/// a buffer.
#[derive(Debug, Clone, Copy, PartialEq, Eq, Structural)]
pub enum ProtocolError {
    /// Buffer shorter than the fixed header.
    TooShort,
    /// `magic` field did not match [`MAGIC`].
    BadMagic(u16),
    /// `version` field is not one we speak.
    UnsupportedVersion(u8),
    /// `codec` field is not a value we recognise.
    UnknownCodec(u8),
    /// Declared `payload_len` does not match the bytes actually present.
    PayloadLenMismatch { declared: u16, actual: usize },
    /// The output buffer passed to [`encode`] is too small for header + payload.
    OutputTooSmall { needed: usize, got: usize },
    /// Payload exceeds what the 16-bit `payload_len` field can express.
    PayloadTooLarge(usize),
}

/// The parsed contents of a well-formed, supported packet header.
#[derive(Debug, Clone, Copy, PartialEq, Eq, Structural)]
pub struct PacketHeader {
    /// Codec of the payload.
    pub codec: Codec,
    /// Whether the payload is encrypted (ciphertext || tag).
    pub encrypted: bool,
    /// Monotonic sequence number, for loss / reorder detection.
    pub seq: u32,
    /// Capture timestamp in microseconds, on the phone's clock.
    pub timestamp_us: u64,
    /// Length of the payload that follows the header.
    pub payload_len: u16,
}

// ---------------------------------------------------------------------------
// Little-endian integers as byte sequences
// ---------------------------------------------------------------------------

/// `256^n`.
pub open spec fn pow256(n: nat) -> nat
    decreases n,
{
    if n == 0 {
        1
    } else {
        256 * pow256((n - 1) as nat)
    }
}

/// The `n` least significant bytes of `x`, least significant first.
pub open spec fn le_bytes(x: nat, n: nat) -> Seq<u8>
    decreases n,
{
    if n == 0 {
        Seq::empty()
    } else {
        seq![(x % 256) as u8] + le_bytes(x / 256, (n - 1) as nat)
    }
}

/// The unsigned integer whose little-endian encoding is `s`.
pub open spec fn le_value(s: Seq<u8>) -> nat
    decreases s.len(),
{
    if s.len() == 0 {
        0
    } else {
        s[0] as nat + 256 * le_value(s.drop_first())
    }
}

pub proof fn lemma_pow256_positive(n: nat)
    ensures
        pow256(n) >= 1,
    decreases n,
{
    if n > 0 {
        lemma_pow256_positive((n - 1) as nat);
    }
}

pub proof fn lemma_le_bytes_len(x: nat, n: nat)
    ensures
        le_bytes(x, n).len() == n,
    decreases n,
{
    if n > 0 {
        lemma_le_bytes_len(x / 256, (n - 1) as nat);
    }
}

/// Decoding an encoding gives the value back, when it fits in `n` bytes.
pub proof fn lemma_le_value_of_bytes(x: nat, n: nat)
    requires
        x < pow256(n),
    ensures
        le_value(le_bytes(x, n)) == x,
    decreases n,
{
    lemma_le_bytes_len(x, n);
    if n > 0 {
        let rest = le_bytes(x / 256, (n - 1) as nat);
        assert(le_bytes(x, n).drop_first() =~= rest);
        assert(x / 256 < pow256((n - 1) as nat)) by (nonlinear_arith)
            requires
                x < 256 * pow256((n - 1) as nat),
        ;
        lemma_le_value_of_bytes(x / 256, (n - 1) as nat);
        assert(x == x % 256 + 256 * (x / 256)) by (nonlinear_arith);
    }
}

/// A byte sequence is the encoding of its own value.
pub proof fn lemma_le_bytes_of_value(s: Seq<u8>)
    ensures
        le_bytes(le_value(s), s.len()) == s,
        le_value(s) < pow256(s.len()),
    decreases s.len(),
{
    if s.len() > 0 {
        let t = s.drop_first();
        lemma_le_bytes_of_value(t);
        let v = le_value(s);
        let w = le_value(t);
        assert(v == s[0] as nat + 256 * w);
        assert(v % 256 == s[0] as nat && v / 256 == w) by (nonlinear_arith)
            requires
                v == s[0] as nat + 256 * w,
                s[0] < 256,
        ;
        assert(v < 256 * pow256(t.len())) by (nonlinear_arith)
            requires
                v == s[0] as nat + 256 * w,
                s[0] < 256,
                w < pow256(t.len()),
        ;
        assert(le_bytes(v, s.len()) =~= seq![s[0]] + t);
        assert(seq![s[0]] + t =~= s);
    }
}

/// Writes the `n` little-endian bytes of `x` at `out[pos..pos + n]`.
pub(crate) fn write_le(out: &mut [u8], pos: usize, x: u64, n: usize)
    requires
        pos + n <= old(out)@.len(),
        n <= 8,
    ensures
        final(out)@.len() == old(out)@.len(),
        final(out)@ == old(out)@.subrange(0, pos as int) + le_bytes(x as nat, n as nat)
            + old(out)@.subrange(pos + n, old(out)@.len() as int),
{
    let mut v: u64 = x;
    let mut i: usize = 0;
    let out_len = out.len();
    proof {
        lemma_pow256_values();
        assert(out@ =~= old(out)@.subrange(0, pos as int) + le_bytes(x as nat, 0)
            + old(out)@.subrange(pos as int, old(out)@.len() as int));
    }
    while i < n
        invariant
            0 <= i <= n,
            pos + n <= out@.len(),
            out_len == out@.len(),
            out@.len() == old(out)@.len(),
            v as nat == x as nat / pow256(i as nat),
            out@ == old(out)@.subrange(0, pos as int) + le_bytes(x as nat, i as nat)
                + old(out)@.subrange(pos + i, old(out)@.len() as int),
        decreases n - i,
    {
        proof {
            lemma_le_bytes_len(x as nat, i as nat);
            lemma_le_bytes_append(x as nat, i as nat);
            lemma_pow256_positive(i as nat);
        }
        let b: u8 = (v % 256) as u8;
        out[pos + i] = b;
        proof {
            assert(le_bytes(v as nat / 256, 0) =~= Seq::<u8>::empty());
            assert(le_bytes(v as nat, 1) =~= seq![b]);
            assert(le_bytes(x as nat, (i + 1) as nat) =~= le_bytes(x as nat, i as nat) + seq![b]);
            vstd::arithmetic::div_mod::lemma_div_denominator(
                x as int,
                pow256(i as nat) as int,
                256,
            );
            assert(pow256((i + 1) as nat) == 256 * pow256(i as nat));
            vstd::arithmetic::mul::lemma_mul_is_commutative(256, pow256(i as nat) as int);
        }
        v = v / 256;
        i = i + 1;
        proof {
            lemma_le_bytes_len(x as nat, i as nat);
            assert(out@ =~= old(out)@.subrange(0, pos as int) + le_bytes(x as nat, i as nat)
                + old(out)@.subrange(pos + i, old(out)@.len() as int));
        }
    }
}

/// Splitting an encoding after `i` bytes.
proof fn lemma_le_bytes_append(x: nat, i: nat)
    ensures
        le_bytes(x, i) + le_bytes(x / pow256(i), 1) == le_bytes(x, i + 1),
    decreases i,
{
    lemma_pow256_positive(i);
    if i == 0 {
        assert(le_bytes(x, 0) + le_bytes(x, 1) =~= le_bytes(x, 1));
    } else {
        lemma_le_bytes_append(x / 256, (i - 1) as nat);
        lemma_pow256_positive((i - 1) as nat);
        assert(x / 256 / pow256((i - 1) as nat) == x / pow256(i)) by (nonlinear_arith)
            requires
                pow256(i) == 256 * pow256((i - 1) as nat),
                pow256((i - 1) as nat) >= 1,
        {
            vstd::arithmetic::div_mod::lemma_div_denominator(x as int, 256, pow256((i - 1) as nat) as int);
        }
        assert(le_bytes(x, i) + le_bytes(x / pow256(i), 1) =~= le_bytes(x, i + 1));
    }
}

/// Reads the little-endian integer stored in `buf[pos..pos + n]`.
fn read_le(buf: &[u8], pos: usize, n: usize) -> (v: u64)
    requires
        pos + n <= buf@.len(),
        n <= 8,
    ensures
        v as nat == le_value(buf@.subrange(pos as int, pos + n)),
{
    let mut v: u64 = 0;
    let mut i: usize = n;
    let buf_len = buf.len();
    while i > 0
        invariant
            0 <= i <= n,
            buf_len == buf@.len(),
            n <= 8,
            pos + n <= buf@.len(),
            v as nat == le_value(buf@.subrange(pos + i, pos + n)),
            v < pow256((n - i) as nat),
        decreases i,
    {
        let ghost old_v = v;
        proof {
            assert(pow256((n - i) as nat) <= pow256(7)) by {
                lemma_pow256_monotone((n - i) as nat, 7);
            }
            lemma_pow256_values();
        }
        i = i - 1;
        assert(v < 0x100000000000000);
        v = v * 256 + buf[pos + i] as u64;
        proof {
            let s = buf@.subrange(pos + i, pos + n);
            assert(s.drop_first() =~= buf@.subrange(pos + i + 1, pos + n));
            assert(v < pow256((n - i) as nat)) by (nonlinear_arith)
                requires
                    v == old_v * 256 + s[0],
                    old_v < pow256((n - i - 1) as nat),
                    s[0] < 256,
                    pow256((n - i) as nat) == 256 * pow256((n - i - 1) as nat),
            ;
        }
    }
    v
}

/// The powers of 256 up to eight bytes.
pub proof fn lemma_pow256_values()
    ensures
        pow256(0) == 1,
        pow256(1) == 0x100,
        pow256(2) == 0x10000,
        pow256(3) == 0x1000000,
        pow256(4) == 0x100000000,
        pow256(5) == 0x10000000000,
        pow256(6) == 0x1000000000000,
        pow256(7) == 0x100000000000000,
        pow256(8) == 0x10000000000000000,
{
    reveal_with_fuel(pow256, 9);
}

proof fn lemma_pow256_monotone(a: nat, b: nat)
    requires
        a <= b,
    ensures
        pow256(a) <= pow256(b),
    decreases b,
{
    if a < b {
        lemma_pow256_monotone(a, (b - 1) as nat);
        lemma_pow256_positive((b - 1) as nat);
    }
}

// ---------------------------------------------------------------------------
// Codec
// ---------------------------------------------------------------------------

/// The on-wire byte of a codec.
pub open spec fn codec_value(c: Codec) -> u8 {
    match c {
        Codec::Pcm16 => 0,
        Codec::Opus => 1,
    }
}

/// The codec with on-wire byte `v`, or the error that rejects it.
pub open spec fn codec_of(v: u8) -> Result<Codec, ProtocolError> {
    if v == 0 {
        Ok(Codec::Pcm16)
    } else if v == 1 {
        Ok(Codec::Opus)
    } else {
        Err(ProtocolError::UnknownCodec(v))
    }
}

impl Codec {
    /// Map the on-wire codec byte to a [`Codec`], rejecting unknown values.
    pub fn from_u8(v: u8) -> (r: Result<Self, ProtocolError>)
        ensures
            r == codec_of(v),
    {
        match v {
            0 => Ok(Codec::Pcm16),
            1 => Ok(Codec::Opus),
            _ => Err(ProtocolError::UnknownCodec(v)),
        }
    }

    /// The on-wire codec byte.
    pub fn to_u8(self) -> (r: u8)
        ensures
            r == codec_value(self),
    {
        match self {
            Codec::Pcm16 => 0,
            Codec::Opus => 1,
        }
    }
}

/// Every codec survives the trip through its on-wire byte, and a byte is a
/// codec exactly when it is one of the two known values.
pub proof fn law_codec_byte_roundtrip(c: Codec, v: u8)
    ensures
        codec_of(codec_value(c)) == Ok::<Codec, ProtocolError>(c),
        codec_of(v) is Ok <==> v < 2,
        codec_of(v) matches Ok(d) ==> codec_value(d) == v,
{
}

// ---------------------------------------------------------------------------
// Framing
// ---------------------------------------------------------------------------

/// Is `version` a protocol version this build can decode?
pub open spec fn version_supported(version: u8) -> bool {
    version == PROTOCOL_VERSION
}

/// Is `version` a protocol version this build can decode?
pub fn is_version_supported(version: u8) -> (r: bool)
    ensures
        r == version_supported(version),
{
    version == PROTOCOL_VERSION
}

/// The codec byte on the wire: the codec's value, with bit 7 set when the
/// payload is encrypted.
pub open spec fn codec_field(codec: Codec, encrypted: bool) -> u8 {
    if encrypted {
        (codec_value(codec) + 128) as u8
    } else {
        codec_value(codec)
    }
}

/// The 18 header bytes of a packet.
pub open spec fn header_bytes(
    codec: Codec,
    encrypted: bool,
    seq: u32,
    timestamp_us: u64,
    payload_len: u16,
) -> Seq<u8> {
    le_bytes(MAGIC as nat, 2) + seq![PROTOCOL_VERSION, codec_field(codec, encrypted)]
        + le_bytes(seq as nat, 4) + le_bytes(timestamp_us as nat, 8) + le_bytes(
        payload_len as nat,
        2,
    )
}

/// The complete datagram carrying `payload` (whose length fits 16 bits).
pub open spec fn packet_bytes(
    codec: Codec,
    encrypted: bool,
    seq: u32,
    timestamp_us: u64,
    payload: Seq<u8>,
) -> Seq<u8> {
    header_bytes(codec, encrypted, seq, timestamp_us, payload.len() as u16) + payload
}

/// What [`encode`] returns for a payload and an output buffer of `out_len` bytes.
pub open spec fn encode_result(payload_len: nat, out_len: nat) -> Result<usize, ProtocolError> {
    if payload_len > u16::MAX {
        Err(ProtocolError::PayloadTooLarge(payload_len as usize))
    } else if out_len < HEADER_LEN + payload_len {
        Err(
            ProtocolError::OutputTooSmall {
                needed: (HEADER_LEN + payload_len) as usize,
                got: out_len as usize,
            },
        )
    } else {
        Ok((HEADER_LEN + payload_len) as usize)
    }
}

/// What [`decode`] makes of a datagram, checking in order: length, magic,
/// version, codec, declared payload length.
pub open spec fn decode_result(buf: Seq<u8>) -> Result<(PacketHeader, Seq<u8>), ProtocolError> {
    if buf.len() < HEADER_LEN {
        Err(ProtocolError::TooShort)
    } else if le_value(buf.subrange(0, 2)) != MAGIC {
        Err(ProtocolError::BadMagic(le_value(buf.subrange(0, 2)) as u16))
    } else if !version_supported(buf[2]) {
        Err(ProtocolError::UnsupportedVersion(buf[2]))
    } else if codec_of((buf[3] % 128) as u8) is Err {
        Err(ProtocolError::UnknownCodec((buf[3] % 128) as u8))
    } else if le_value(buf.subrange(16, 18)) != buf.len() - HEADER_LEN {
        Err(
            ProtocolError::PayloadLenMismatch {
                declared: le_value(buf.subrange(16, 18)) as u16,
                actual: (buf.len() - HEADER_LEN) as usize,
            },
        )
    } else {
        Ok(
            (
                PacketHeader {
                    codec: codec_of((buf[3] % 128) as u8)->Ok_0,
                    encrypted: buf[3] >= 128,
                    seq: le_value(buf.subrange(4, 8)) as u32,
                    timestamp_us: le_value(buf.subrange(8, 16)) as u64,
                    payload_len: le_value(buf.subrange(16, 18)) as u16,
                },
                buf.subrange(HEADER_LEN as int, buf.len() as int),
            ),
        )
    }
}

/// Encode the header fields plus `payload` into `out`, returning the total
/// number of bytes written (`HEADER_LEN + payload.len()`).
///
/// The `payload_len` field is computed from `payload`, so the declared length
/// always agrees with the contents. On error `out` is left untouched.
pub fn encode(
    codec: Codec,
    encrypted: bool,
    seq: u32,
    timestamp_us: u64,
    payload: &[u8],
    out: &mut [u8],
) -> (r: Result<usize, ProtocolError>)
    ensures
        r == encode_result(payload@.len(), old(out)@.len()),
        final(out)@.len() == old(out)@.len(),
        r is Err ==> final(out)@ == old(out)@,
        r matches Ok(n) ==> final(out)@ == packet_bytes(codec, encrypted, seq, timestamp_us, payload@)
            + old(out)@.subrange(n as int, old(out)@.len() as int),
{
    if payload.len() > 65535 {
        return Err(ProtocolError::PayloadTooLarge(payload.len()));
    }
    let total = HEADER_LEN + payload.len();
    if out.len() < total {
        return Err(ProtocolError::OutputTooSmall { needed: total, got: out.len() });
    }
    let ghost orig = out@;
    write_le(out, 0, MAGIC as u64, 2);
    out[2] = PROTOCOL_VERSION;
    let c = codec.to_u8();
    let flag: u8 = if encrypted {
        ENCRYPTED_FLAG
    } else {
        0
    };
    out[3] = c | flag;
    proof {
        assert(c < 2 ==> c | 0x80u8 == c + 128) by (bit_vector);
        assert(c | 0u8 == c) by (bit_vector);
    }
    write_le(out, 4, seq as u64, 4);
    write_le(out, 8, timestamp_us as u64, 8);
    write_le(out, 16, payload.len() as u64, 2);
    let mut i: usize = 0;
    while i < payload.len()
        invariant
            0 <= i <= payload@.len(),
            total == HEADER_LEN + payload@.len(),
            total <= out@.len(),
            out@.len() == orig.len(),
            out@ == header_bytes(codec, encrypted, seq, timestamp_us, payload@.len() as u16)
                + payload@.subrange(0, i as int) + orig.subrange(HEADER_LEN + i, orig.len() as int),
        decreases payload@.len() - i,
    {
        proof {
            lemma_header_len(codec, encrypted, seq, timestamp_us, payload@.len() as u16);
        }
        out[HEADER_LEN + i] = payload[i];
        i = i + 1;
        proof {
            assert(out@ =~= header_bytes(codec, encrypted, seq, timestamp_us, payload@.len() as u16)
                + payload@.subrange(0, i as int) + orig.subrange(HEADER_LEN + i, orig.len() as int));
        }
    }
    proof {
        assert(payload@.subrange(0, i as int) =~= payload@);
        lemma_header_len(codec, encrypted, seq, timestamp_us, payload@.len() as u16);
        lemma_le_bytes_len(MAGIC as nat, 2);
        lemma_le_bytes_len(seq as nat, 4);
        lemma_le_bytes_len(timestamp_us as nat, 8);
        lemma_le_bytes_len(payload@.len(), 2);
        assert(out@ =~= packet_bytes(codec, encrypted, seq, timestamp_us, payload@)
            + orig.subrange(total as int, orig.len() as int));
    }
    Ok(total)
}

/// The header of every packet is [`HEADER_LEN`] bytes long.
pub proof fn lemma_header_len(
    codec: Codec,
    encrypted: bool,
    seq: u32,
    timestamp_us: u64,
    payload_len: u16,
)
    ensures
        header_bytes(codec, encrypted, seq, timestamp_us, payload_len).len() == HEADER_LEN,
{
    lemma_le_bytes_len(MAGIC as nat, 2);
    lemma_le_bytes_len(seq as nat, 4);
    lemma_le_bytes_len(timestamp_us as nat, 8);
    lemma_le_bytes_len(payload_len as nat, 2);
}

/// Decode one packet from `buf`, returning its [`PacketHeader`] and a slice
/// borrowing the payload out of `buf`.
///
/// `buf` must hold exactly one datagram; trailing garbage and truncation both
/// give [`ProtocolError::PayloadLenMismatch`]. Decoding never panics.
pub fn decode(buf: &[u8]) -> (r: Result<(PacketHeader, &[u8]), ProtocolError>)
    ensures
        match r {
            Ok((h, p)) => decode_result(buf@) == Ok::<(PacketHeader, Seq<u8>), ProtocolError>(
                (h, p@),
            ),
            Err(e) => decode_result(buf@) == Err::<(PacketHeader, Seq<u8>), ProtocolError>(e),
        },
{
    if buf.len() < HEADER_LEN {
        return Err(ProtocolError::TooShort);
    }
    proof {
        lemma_pow256_values();
        lemma_le_bytes_of_value(buf@.subrange(0, 2));
        lemma_le_bytes_of_value(buf@.subrange(4, 8));
        lemma_le_bytes_of_value(buf@.subrange(8, 16));
        lemma_le_bytes_of_value(buf@.subrange(16, 18));
    }
    let magic = read_le(buf, 0, 2) as u16;
    if magic != MAGIC {
        return Err(ProtocolError::BadMagic(magic));
    }
    let version = buf[2];
    if !is_version_supported(version) {
        return Err(ProtocolError::UnsupportedVersion(version));
    }
    let codec_byte = buf[3];
    let encrypted = codec_byte & ENCRYPTED_FLAG != 0;
    proof {
        assert(codec_byte & 0x7fu8 == codec_byte % 128) by (bit_vector);
        assert((codec_byte & 0x80u8 != 0) == (codec_byte >= 128)) by (bit_vector);
    }
    let codec = match Codec::from_u8(codec_byte & 0x7f) {
        Ok(c) => c,
        Err(e) => return Err(e),
    };
    let seq = read_le(buf, 4, 4) as u32;
    let timestamp_us = read_le(buf, 8, 8);
    let payload_len = read_le(buf, 16, 2) as u16;
    let actual_payload = buf.len() - HEADER_LEN;
    if payload_len as usize != actual_payload {
        return Err(
            ProtocolError::PayloadLenMismatch { declared: payload_len, actual: actual_payload },
        );
    }
    let header = PacketHeader { codec, encrypted, seq, timestamp_us, payload_len };
    Ok((header, vstd::slice::slice_subrange(buf, HEADER_LEN, buf.len())))
}


/// Number of little-endian `i16` samples in a PCM16 payload, or `None` if
/// its length is odd (a partial sample, which indicates corruption).
pub fn pcm16_sample_count(payload: &[u8]) -> (r: Option<usize>)
    ensures
        r == (if payload@.len() % 2 == 0 {
            Some((payload@.len() / 2) as usize)
        } else {
            None::<usize>
        }),
{
    if payload.len() % 2 == 0 {
        Some(payload.len() / 2)
    } else {
        None
    }
}

/// Every packet starts with the ASCII bytes `"PM"`, carries the current
/// version, and is exactly `HEADER_LEN + payload.len()` bytes long.
pub proof fn law_packet_layout(
    codec: Codec,
    encrypted: bool,
    seq: u32,
    timestamp_us: u64,
    payload: Seq<u8>,
)
    requires
        payload.len() <= u16::MAX,
    ensures
        packet_bytes(codec, encrypted, seq, timestamp_us, payload).len() == HEADER_LEN
            + payload.len(),
        packet_bytes(codec, encrypted, seq, timestamp_us, payload)[0] == 0x50,
        packet_bytes(codec, encrypted, seq, timestamp_us, payload)[1] == 0x4D,
        packet_bytes(codec, encrypted, seq, timestamp_us, payload)[2] == PROTOCOL_VERSION,
        packet_bytes(codec, encrypted, seq, timestamp_us, payload).subrange(
            HEADER_LEN as int,
            HEADER_LEN + payload.len(),
        ) == payload,
{
    lemma_header_len(codec, encrypted, seq, timestamp_us, payload.len() as u16);
    let b = le_bytes(MAGIC as nat, 2);
    lemma_le_bytes_len(MAGIC as nat, 2);
    assert(le_bytes(0, 0) =~= Seq::<u8>::empty());
    assert(le_bytes(0x4D, 1) =~= seq![0x4Du8]);
    assert(le_bytes(0x4D50, 2) =~= seq![0x50u8, 0x4Du8]);
    assert(b[0] == 0x50 && b[1] == 0x4D);
    let p = packet_bytes(codec, encrypted, seq, timestamp_us, payload);
    assert(p.subrange(HEADER_LEN as int, HEADER_LEN + payload.len()) =~= payload);
}

/// Splits a header's bytes back into its fields.
proof fn lemma_header_fields(
    codec: Codec,
    encrypted: bool,
    seq: u32,
    timestamp_us: u64,
    payload_len: u16,
)
    ensures
        ({
            let h = header_bytes(codec, encrypted, seq, timestamp_us, payload_len);
            &&& h.subrange(0, 2) == le_bytes(MAGIC as nat, 2)
            &&& h[2] == PROTOCOL_VERSION
            &&& h[3] == codec_field(codec, encrypted)
            &&& h.subrange(4, 8) == le_bytes(seq as nat, 4)
            &&& h.subrange(8, 16) == le_bytes(timestamp_us as nat, 8)
            &&& h.subrange(16, 18) == le_bytes(payload_len as nat, 2)
        }),
{
    lemma_le_bytes_len(MAGIC as nat, 2);
    lemma_le_bytes_len(seq as nat, 4);
    lemma_le_bytes_len(timestamp_us as nat, 8);
    lemma_le_bytes_len(payload_len as nat, 2);
    let h = header_bytes(codec, encrypted, seq, timestamp_us, payload_len);
    assert(h.subrange(0, 2) =~= le_bytes(MAGIC as nat, 2));
    assert(h.subrange(4, 8) =~= le_bytes(seq as nat, 4));
    assert(h.subrange(8, 16) =~= le_bytes(timestamp_us as nat, 8));
    assert(h.subrange(16, 18) =~= le_bytes(payload_len as nat, 2));
}

/// Decoding what was encoded gives back every field and the payload.
pub proof fn law_decode_of_encode(
    codec: Codec,
    encrypted: bool,
    seq: u32,
    timestamp_us: u64,
    payload: Seq<u8>,
)
    requires
        payload.len() <= u16::MAX,
    ensures
        decode_result(packet_bytes(codec, encrypted, seq, timestamp_us, payload)) == Ok::<
            (PacketHeader, Seq<u8>),
            ProtocolError,
        >(
            (
                PacketHeader {
                    codec,
                    encrypted,
                    seq,
                    timestamp_us,
                    payload_len: payload.len() as u16,
                },
                payload,
            ),
        ),
{
    let buf = packet_bytes(codec, encrypted, seq, timestamp_us, payload);
    let len = payload.len() as u16;
    lemma_header_len(codec, encrypted, seq, timestamp_us, len);
    lemma_header_fields(codec, encrypted, seq, timestamp_us, len);
    let h = header_bytes(codec, encrypted, seq, timestamp_us, len);
    lemma_pow256_values();
    assert(buf.subrange(0, 2) =~= h.subrange(0, 2));
    assert(buf.subrange(4, 8) =~= h.subrange(4, 8));
    assert(buf.subrange(8, 16) =~= h.subrange(8, 16));
    assert(buf.subrange(16, 18) =~= h.subrange(16, 18));
    assert(buf[2] == h[2] && buf[3] == h[3]);
    lemma_le_value_of_bytes(MAGIC as nat, 2);
    lemma_le_value_of_bytes(seq as nat, 4);
    lemma_le_value_of_bytes(timestamp_us as nat, 8);
    lemma_le_value_of_bytes(len as nat, 2);
    assert(buf.subrange(HEADER_LEN as int, buf.len() as int) =~= payload);
    let c = buf[3];
    assert(c % 128 == codec_value(codec) && (c >= 128) == encrypted);
}

/// A datagram that decodes is exactly the encoding of what it decodes to:
/// the framing has a single byte representation for each packet.
pub proof fn law_encode_of_decode(buf: Seq<u8>)
    requires
        decode_result(buf) is Ok,
    ensures
        ({
            let (h, p) = decode_result(buf)->Ok_0;
            &&& h.payload_len == p.len()
            &&& packet_bytes(h.codec, h.encrypted, h.seq, h.timestamp_us, p) == buf
        }),
{
    let (h, p) = decode_result(buf)->Ok_0;
    lemma_pow256_values();
    lemma_le_bytes_of_value(buf.subrange(0, 2));
    lemma_le_bytes_of_value(buf.subrange(4, 8));
    lemma_le_bytes_of_value(buf.subrange(8, 16));
    lemma_le_bytes_of_value(buf.subrange(16, 18));
    let len = p.len() as u16;
    lemma_header_len(h.codec, h.encrypted, h.seq, h.timestamp_us, len);
    lemma_header_fields(h.codec, h.encrypted, h.seq, h.timestamp_us, len);
    let e = header_bytes(h.codec, h.encrypted, h.seq, h.timestamp_us, len);
    assert(codec_field(h.codec, h.encrypted) == buf[3]);
    assert(e.subrange(0, 2) =~= buf.subrange(0, 2));
    assert(e.subrange(4, 8) =~= buf.subrange(4, 8));
    assert(e.subrange(8, 16) =~= buf.subrange(8, 16));
    assert(e.subrange(16, 18) =~= buf.subrange(16, 18));
    assert(e =~= buf.subrange(0, 18)) by {
        assert forall|i: int| 0 <= i < 18 implies e[i] == buf[i] by {
            if i < 2 {
                assert(e[i] == e.subrange(0, 2)[i]);
                assert(buf[i] == buf.subrange(0, 2)[i]);
            } else if 4 <= i < 8 {
                assert(e[i] == e.subrange(4, 8)[i - 4]);
                assert(buf[i] == buf.subrange(4, 8)[i - 4]);
            } else if 8 <= i < 16 {
                assert(e[i] == e.subrange(8, 16)[i - 8]);
                assert(buf[i] == buf.subrange(8, 16)[i - 8]);
            } else if 16 <= i < 18 {
                assert(e[i] == e.subrange(16, 18)[i - 16]);
                assert(buf[i] == buf.subrange(16, 18)[i - 16]);
            }
        }
    }
    assert(e + p =~= buf);
}

} // verus!
