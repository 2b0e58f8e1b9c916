use phonemic::protocol::{
    decode, encode, is_version_supported, pcm16_sample_count, Codec, ProtocolError, HEADER_LEN,
    MAGIC, PROTOCOL_VERSION,
};

/// A payload big enough to exercise the offsets.
const SAMPLE_PAYLOAD: &[u8] = &[1, 2, 3, 4, 5, 6, 7, 8, 9, 10];

fn roundtrip(codec: Codec, seq: u32, ts: u64, payload: &[u8]) {
    let mut buf = [0u8; 512];
    let n = encode(codec, false, seq, ts, payload, &mut buf).expect("encode ok");
    assert_eq!(n, HEADER_LEN + payload.len());

    let (header, decoded_payload) = decode(&buf[..n]).expect("decode ok");
    assert_eq!(header.codec, codec);
    assert!(!header.encrypted);
    assert_eq!(header.seq, seq);
    assert_eq!(header.timestamp_us, ts);
    assert_eq!(header.payload_len as usize, payload.len());
    assert_eq!(decoded_payload, payload);
}

#[test]
fn encrypted_flag_round_trips() {
    let mut buf = [0u8; 64];
    let n = encode(Codec::Opus, true, 1, 2, &[9, 9, 9], &mut buf).unwrap();
    let (header, _) = decode(&buf[..n]).unwrap();
    assert!(header.encrypted);
    assert_eq!(header.codec, Codec::Opus, "codec still parsed under the flag");
}

#[test]
fn roundtrip_pcm16() {
    roundtrip(Codec::Pcm16, 42, 1_234_567_890, SAMPLE_PAYLOAD);
}

#[test]
fn roundtrip_opus() {
    roundtrip(Codec::Opus, u32::MAX, u64::MAX, SAMPLE_PAYLOAD);
}

#[test]
fn roundtrip_empty_payload() {
    // A zero-length payload is legal framing (e.g. a keepalive).
    roundtrip(Codec::Pcm16, 0, 0, &[]);
}

#[test]
fn magic_is_ascii_pm() {
    let mut buf = [0u8; 32];
    encode(Codec::Pcm16, false, 0, 0, SAMPLE_PAYLOAD, &mut buf).unwrap();
    // "PM" on the wire, little-endian.
    assert_eq!(&buf[0..2], b"PM");
}

#[test]
fn reject_too_short() {
    assert_eq!(decode(&[]), Err(ProtocolError::TooShort));
    assert_eq!(decode(&[0u8; HEADER_LEN - 1]), Err(ProtocolError::TooShort));
}

#[test]
fn reject_bad_magic() {
    let mut buf = [0u8; 32];
    let n = encode(Codec::Pcm16, false, 1, 1, SAMPLE_PAYLOAD, &mut buf).unwrap();
    buf[0] ^= 0xFF; // corrupt magic
    match decode(&buf[..n]) {
        Err(ProtocolError::BadMagic(_)) => {}
        other => panic!("expected BadMagic, got {other:?}"),
    }
}

#[test]
fn reject_unsupported_version() {
    let mut buf = [0u8; 32];
    let n = encode(Codec::Pcm16, false, 1, 1, SAMPLE_PAYLOAD, &mut buf).unwrap();
    buf[2] = PROTOCOL_VERSION.wrapping_add(1);
    assert_eq!(
        decode(&buf[..n]),
        Err(ProtocolError::UnsupportedVersion(PROTOCOL_VERSION + 1))
    );
}

#[test]
fn reject_unknown_codec() {
    let mut buf = [0u8; 32];
    let n = encode(Codec::Pcm16, false, 1, 1, SAMPLE_PAYLOAD, &mut buf).unwrap();
    buf[3] = 5; // not a known codec (low 7 bits; bit 7 is the encrypted flag)
    assert_eq!(decode(&buf[..n]), Err(ProtocolError::UnknownCodec(5)));
}

#[test]
fn reject_truncated_payload() {
    // Header claims 10 payload bytes but the datagram carries only 5.
    let mut buf = [0u8; 32];
    let n = encode(Codec::Pcm16, false, 1, 1, SAMPLE_PAYLOAD, &mut buf).unwrap();
    let truncated = &buf[..n - 5];
    match decode(truncated) {
        Err(ProtocolError::PayloadLenMismatch { declared, actual }) => {
            assert_eq!(declared, 10);
            assert_eq!(actual, 5);
        }
        other => panic!("expected PayloadLenMismatch, got {other:?}"),
    }
}

#[test]
fn reject_trailing_garbage() {
    // Extra bytes beyond the declared payload also fail.
    let mut buf = [0u8; 64];
    let n = encode(Codec::Pcm16, false, 1, 1, SAMPLE_PAYLOAD, &mut buf).unwrap();
    let with_garbage = &buf[..n + 3];
    match decode(with_garbage) {
        Err(ProtocolError::PayloadLenMismatch { declared, actual }) => {
            assert_eq!(declared, 10);
            assert_eq!(actual, 13);
        }
        other => panic!("expected PayloadLenMismatch, got {other:?}"),
    }
}

#[test]
fn encode_rejects_small_output() {
    let mut small = [0u8; HEADER_LEN + 2];
    let err = encode(Codec::Pcm16, false, 0, 0, SAMPLE_PAYLOAD, &mut small).unwrap_err();
    assert_eq!(
        err,
        ProtocolError::OutputTooSmall {
            needed: HEADER_LEN + SAMPLE_PAYLOAD.len(),
            got: HEADER_LEN + 2,
        }
    );
}

#[test]
fn pcm16_sample_count_checks_alignment() {
    assert_eq!(pcm16_sample_count(&[0, 0, 0, 0]), Some(2));
    assert_eq!(pcm16_sample_count(&[]), Some(0));
    assert_eq!(pcm16_sample_count(&[0, 0, 0]), None);
}

#[test]
fn header_len_constant_matches_layout() {
    assert_eq!(HEADER_LEN, 2 + 1 + 1 + 4 + 8 + 2);
}

// ---- further cases ----

#[test]
fn encode_writes_exact_little_endian_layout() {
    let mut buf = [0xAAu8; 24];
    let n = encode(
        Codec::Opus,
        true,
        0x0403_0201,
        0x0C0B_0A09_0807_0605,
        &[0xEE, 0xFF],
        &mut buf,
    )
    .unwrap();
    assert_eq!(n, 20);
    assert_eq!(
        &buf[..20],
        &[
            0x50, 0x4D, 1, 0x81, 0x01, 0x02, 0x03, 0x04, 0x05, 0x06, 0x07, 0x08, 0x09, 0x0A, 0x0B,
            0x0C, 2, 0, 0xEE, 0xFF
        ]
    );
    // Bytes past the packet are left as they were.
    assert_eq!(&buf[20..], &[0xAA; 4]);
}

#[test]
fn encode_rejects_oversized_payload_and_leaves_output() {
    let payload = vec![0u8; 65_536];
    let mut out = vec![7u8; 70_000];
    assert_eq!(
        encode(Codec::Pcm16, false, 0, 0, &payload, &mut out),
        Err(ProtocolError::PayloadTooLarge(65_536))
    );
    assert!(out.iter().all(|&b| b == 7));
}

#[test]
fn encode_accepts_largest_payload() {
    let payload = vec![3u8; 65_535];
    let mut out = vec![0u8; HEADER_LEN + 65_535];
    let n = encode(Codec::Pcm16, false, 9, 9, &payload, &mut out).unwrap();
    assert_eq!(n, HEADER_LEN + 65_535);
    let (h, p) = decode(&out).unwrap();
    assert_eq!(h.payload_len, 65_535);
    assert_eq!(p.len(), 65_535);
}

#[test]
fn bad_magic_reports_the_value_read() {
    let mut buf = [0u8; 18];
    encode(Codec::Pcm16, false, 0, 0, &[], &mut buf).unwrap();
    buf[0] = 0x12;
    buf[1] = 0x34;
    assert_eq!(decode(&buf), Err(ProtocolError::BadMagic(0x3412)));
}

#[test]
fn codec_bytes_round_trip() {
    assert_eq!(Codec::from_u8(0), Ok(Codec::Pcm16));
    assert_eq!(Codec::from_u8(1), Ok(Codec::Opus));
    assert_eq!(Codec::from_u8(2), Err(ProtocolError::UnknownCodec(2)));
    assert_eq!(Codec::Pcm16.to_u8(), 0);
    assert_eq!(Codec::Opus.to_u8(), 1);
    for c in [Codec::Pcm16, Codec::Opus] {
        assert_eq!(Codec::from_u8(c.to_u8()), Ok(c));
    }
}

#[test]
fn only_current_version_supported() {
    assert!(is_version_supported(PROTOCOL_VERSION));
    assert!(!is_version_supported(0));
    assert!(!is_version_supported(2));
    assert_eq!(MAGIC, 0x4D50);
}

#[test]
fn encrypted_flag_with_unknown_codec_is_rejected() {
    let mut buf = [0u8; 20];
    encode(Codec::Pcm16, false, 1, 1, &[0, 0], &mut buf).unwrap();
    buf[3] = 0x80 | 3;
    assert_eq!(decode(&buf), Err(ProtocolError::UnknownCodec(3)));
}
