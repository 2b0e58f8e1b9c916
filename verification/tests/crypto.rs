use phonemic::crypto::{decrypt, derive_key, encrypt, TAG_LEN};

fn hex(bytes: &[u8]) -> String {
    bytes.iter().map(|b| format!("{b:02x}")).collect()
}

#[test]
fn round_trip() {
    let key = derive_key("123456");
    let aad = [1u8; 18];
    let pt = b"forty-eight kilohertz mono pcm";
    let ct = encrypt(&key, &aad, 7, 0xDEAD_BEEF, pt);
    assert_eq!(ct.len(), pt.len() + TAG_LEN);
    let out = decrypt(&key, &aad, 7, 0xDEAD_BEEF, &ct).expect("decrypt ok");
    assert_eq!(out, pt);
}

#[test]
fn wrong_pin_fails() {
    let ct = encrypt(&derive_key("111111"), &[0u8; 18], 1, 1, b"secret");
    assert!(decrypt(&derive_key("222222"), &[0u8; 18], 1, 1, &ct).is_none());
}

#[test]
fn tampered_header_fails() {
    let key = derive_key("999999");
    let ct = encrypt(&key, &[0u8; 18], 1, 1, b"secret");
    let mut bad_aad = [0u8; 18];
    bad_aad[3] = 1; // flip a header byte
    assert!(decrypt(&key, &bad_aad, 1, 1, &ct).is_none());
}

#[test]
fn interop_fixed_vector() {
    // key = derive_key("246810"); plaintext = "PhoneMic"; seq=5 ts=0x0102030405060708; aad=00..11
    let key = derive_key("246810");
    let aad: Vec<u8> = (0u8..18).collect();
    let ct = encrypt(&key, &aad, 5, 0x0102_0304_0506_0708, b"PhoneMic");
    let out = decrypt(&key, &aad, 5, 0x0102_0304_0506_0708, &ct).unwrap();
    assert_eq!(&out, b"PhoneMic");
}

// ---- further cases ----

#[test]
fn key_is_blake2b_of_salt_and_pin() {
    // BLAKE2b-256("phonemic/v1/kdf" || pin), computed independently.
    assert_eq!(
        hex(&derive_key("123456")),
        "a9ffc64b7676af58d47b7f34db10b5f81334a46c936157464d348389f3d9ca8b"
    );
    assert_eq!(
        hex(&derive_key("")),
        "fd8ed28affa567bf7c077cee472e1096039535be13f23ee1917b1e182dc42f4a"
    );
}

#[test]
fn ciphertext_matches_independent_xchacha20poly1305() {
    // Same vector as interop_fixed_vector, sealed by an independent
    // implementation (HChaCha20 + ChaCha20-Poly1305).
    let key = derive_key("246810");
    let aad: Vec<u8> = (0u8..18).collect();
    let ct = encrypt(&key, &aad, 5, 0x0102_0304_0506_0708, b"PhoneMic");
    assert_eq!(hex(&ct), "8657a6debf8c8a16874a9c1e834658a73b5e7e0fa3fa9878");
}

#[test]
fn nonce_depends_on_seq_and_timestamp() {
    let key = derive_key("4242");
    let aad = [0u8; 18];
    let a = encrypt(&key, &aad, 1, 1, b"same words");
    let b = encrypt(&key, &aad, 2, 1, b"same words");
    let c = encrypt(&key, &aad, 1, 2, b"same words");
    assert_ne!(a, b);
    assert_ne!(a, c);
    assert!(decrypt(&key, &aad, 2, 1, &a).is_none());
}

#[test]
fn short_ciphertext_is_rejected() {
    let key = derive_key("1");
    assert!(decrypt(&key, &[0u8; 18], 0, 0, &[0u8; TAG_LEN - 1]).is_none());
    assert!(decrypt(&key, &[0u8; 18], 0, 0, &[]).is_none());
}

#[test]
fn empty_plaintext_is_just_a_tag() {
    let key = derive_key("7");
    let ct = encrypt(&key, &[5u8; 18], 3, 4, &[]);
    assert_eq!(ct.len(), TAG_LEN);
    assert_eq!(decrypt(&key, &[5u8; 18], 3, 4, &ct), Some(Vec::new()));
}
