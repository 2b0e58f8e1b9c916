use phonemic::crypto::{derive_key, encrypt};
use phonemic::protocol::{encode, Codec, HEADER_LEN};
use phonemic::receiver::{
    account_for_loss, is_connected, pcm16_samples, peak, receive_datagram, sample_from_le,
    samples_from_le, should_log_malformed, KeyCache, Measurement, Received,
};

fn packet(codec: Codec, seq: u32, ts: u64, payload: &[u8]) -> Vec<u8> {
    let mut buf = vec![0u8; HEADER_LEN + payload.len()];
    encode(codec, false, seq, ts, payload, &mut buf).unwrap();
    buf
}

fn encrypted_packet(pin: &str, seq: u32, ts: u64, pcm: &[u8]) -> Vec<u8> {
    // The header declares the ciphertext length; it is the AAD.
    let mut buf = vec![0u8; HEADER_LEN + pcm.len() + 16];
    let placeholder = vec![0u8; pcm.len() + 16];
    encode(Codec::Pcm16, true, seq, ts, &placeholder, &mut buf).unwrap();
    let header = buf[..HEADER_LEN].to_vec();
    let ct = encrypt(&derive_key(pin), &header, seq, ts, pcm);
    buf[HEADER_LEN..].copy_from_slice(&ct);
    buf
}

#[test]
fn samples_decode_little_endian_signed() {
    assert_eq!(sample_from_le(0x34, 0x12), 0x1234);
    assert_eq!(sample_from_le(0xFF, 0xFF), -1);
    assert_eq!(sample_from_le(0x00, 0x80), i16::MIN);
    assert_eq!(sample_from_le(0xFF, 0x7F), i16::MAX);
    assert_eq!(samples_from_le(&[1, 0, 0xFE, 0xFF, 9]), vec![1, -2]);
}

#[test]
fn pcm16_payload_needs_whole_samples() {
    assert_eq!(pcm16_samples(&[0x10, 0x00, 0x00, 0x80]), Some(vec![16, i16::MIN]));
    assert_eq!(pcm16_samples(&[]), Some(vec![]));
    assert_eq!(pcm16_samples(&[1, 2, 3]), None);
}

#[test]
fn peak_saturates_on_most_negative() {
    assert_eq!(peak(&[]), 0);
    assert_eq!(peak(&[3, -7, 5]), 7);
    assert_eq!(peak(&[i16::MIN, 2]), i16::MAX);
}

#[test]
fn loss_counts_forward_gaps_only() {
    let mut expected = None;
    let mut lost = 0u64;
    account_for_loss(10, &mut expected, &mut lost);
    assert_eq!((expected, lost), (Some(11), 0));
    account_for_loss(14, &mut expected, &mut lost); // 11, 12, 13 missing
    assert_eq!((expected, lost), (Some(15), 3));
    account_for_loss(12, &mut expected, &mut lost); // late arrival: not loss
    assert_eq!((expected, lost), (Some(13), 3));
    account_for_loss(u32::MAX, &mut expected, &mut lost);
    assert_eq!(expected, Some(0));
}

#[test]
fn loss_counter_may_fill_up_exactly() {
    let mut expected = Some(3);
    let mut lost = u64::MAX - 4;
    account_for_loss(7, &mut expected, &mut lost);
    assert_eq!((expected, lost), (Some(8), u64::MAX));
    // a late packet adds nothing, even with a full counter
    account_for_loss(2, &mut expected, &mut lost);
    assert_eq!((expected, lost), (Some(3), u64::MAX));
}

#[test]
fn malformed_logging_is_rate_limited() {
    assert!(should_log_malformed(1));
    assert!(should_log_malformed(5));
    assert!(!should_log_malformed(6));
    assert!(!should_log_malformed(999));
    assert!(should_log_malformed(1000));
    assert!(should_log_malformed(3000));
}

#[test]
fn connection_times_out_after_1500_ms() {
    assert!(!is_connected(0, 1000, 1000));
    assert!(is_connected(3, 2000, 1000));
    assert!(is_connected(3, 2499, 1000));
    assert!(!is_connected(3, 2500, 1000));
    // A stamp in the future counts as just now.
    assert!(is_connected(1, 100, 5000));
}

#[test]
fn clear_datagram_gives_samples_and_peak() {
    let mut keys = KeyCache::new();
    let buf = packet(Codec::Pcm16, 1, 2, &[0x05, 0x00, 0xF6, 0xFF]);
    match receive_datagram(&buf, "", &mut keys) {
        Received::Audio { samples, peak } => {
            assert_eq!(samples, vec![5, -10]);
            assert_eq!(peak, 10);
        }
        _ => panic!("expected audio"),
    }
}

#[test]
fn unplayable_datagrams_are_ignored() {
    let mut keys = KeyCache::new();
    assert!(matches!(receive_datagram(&[0u8; 5], "", &mut keys), Received::Ignored));
    let opus = packet(Codec::Opus, 1, 2, &[1, 2]);
    assert!(matches!(receive_datagram(&opus, "", &mut keys), Received::Ignored));
    let odd = packet(Codec::Pcm16, 1, 2, &[1, 2, 3]);
    assert!(matches!(receive_datagram(&odd, "", &mut keys), Received::Ignored));
    let mut bad = packet(Codec::Pcm16, 1, 2, &[1, 2]);
    bad[0] = 0;
    assert!(matches!(receive_datagram(&bad, "", &mut keys), Received::Ignored));
}

#[test]
fn encrypted_datagram_needs_the_right_pin() {
    let mut keys = KeyCache::new();
    let buf = encrypted_packet("2468", 9, 77, &[0x01, 0x00, 0x02, 0x00]);
    assert!(matches!(receive_datagram(&buf, "", &mut keys), Received::Undecryptable));
    assert!(matches!(receive_datagram(&buf, "1357", &mut keys), Received::Undecryptable));
    match receive_datagram(&buf, "2468", &mut keys) {
        Received::Audio { samples, peak } => {
            assert_eq!(samples, vec![1, 2]);
            assert_eq!(peak, 2);
        }
        _ => panic!("expected audio"),
    }
    // A tampered header no longer authenticates.
    let mut tampered = buf.clone();
    tampered[4] ^= 1;
    assert!(matches!(receive_datagram(&tampered, "2468", &mut keys), Received::Undecryptable));
}

#[test]
fn key_cache_follows_pin_changes() {
    let mut keys = KeyCache::new();
    assert_eq!(keys.key_for("12"), derive_key("12"));
    assert_eq!(keys.key_for("12"), derive_key("12"));
    assert_eq!(keys.key_for("34"), derive_key("34"));
    assert_eq!(keys.key_for(""), derive_key(""));
}

#[test]
fn measurement_records_latency_loss_and_skew() {
    let mut m = Measurement::new();
    m.record(&packet(Codec::Pcm16, 0, 1_000, &[]), 1_500);
    m.record(&packet(Codec::Pcm16, 3, 2_000, &[]), 2_250);
    m.record(&packet(Codec::Pcm16, 4, 9_000, &[]), 3_000); // stamp in the future
    m.record(&[1, 2, 3], 4_000); // malformed: skipped
    assert_eq!(m.latencies_us, vec![500, 250]);
    assert_eq!(m.lost, 2);
    assert_eq!(m.skipped_clock, 1);
    assert_eq!(m.expected_seq, Some(5));
}
