//! Optional end-to-end encryption for the audio stream.
//!
//! - **Key**: `BLAKE2b-256(KDF_SALT || pin)` — a shared PIN both ends type.
//! - **Cipher**: XChaCha20-Poly1305 (24-byte nonce, 16-byte tag).
//! - **Nonce**: `seq(4 LE) || timestamp_us(8 LE) || 0*12` — both fields travel
//!   in the clear header, so both ends derive the same nonce.
//! - **AAD**: the 18-byte packet header, so header tampering is detected.
//! - **Wire payload** = ciphertext followed by the 16-byte tag.
use crate::protocol::{
    le_bytes, le_value, lemma_le_bytes_len, lemma_le_value_of_bytes, lemma_pow256_values, write_le,
};
use blake2::digest::consts::U32;
use blake2::{Blake2b, Digest};
use chacha20poly1305::aead::{Aead, KeyInit, Payload};
use chacha20poly1305::{Key, XChaCha20Poly1305, XNonce};
use vstd::prelude::*;

verus! {

/// Domain-separation salt hashed in front of the PIN.
pub const KDF_SALT: [u8; 15] = [
    0x70, 0x68, 0x6f, 0x6e, 0x65, 0x6d, 0x69, 0x63, 0x2f, 0x76, 0x31, 0x2f, 0x6b, 0x64, 0x66,
];

/// 16-byte Poly1305 tag appended to every ciphertext.
pub const TAG_LEN: usize = 16;

/// Longest message the cipher takes: `2^32 - 2` keystream blocks of 64 bytes.
pub const MAX_MESSAGE_LEN: u64 = 274_877_906_816;

/// The BLAKE2b digest of `data` with a 32-byte output.
pub uninterp spec fn blake2b_256(data: Seq<u8>) -> Seq<u8>;

/// XChaCha20-Poly1305 encryption: ciphertext followed by the tag.
pub uninterp spec fn xchacha20poly1305_seal(
    key: Seq<u8>,
    nonce: Seq<u8>,
    aad: Seq<u8>,
    plaintext: Seq<u8>,
) -> Seq<u8>;

/// XChaCha20-Poly1305 decryption: the plaintext, or `None` when the tag does
/// not authenticate.
pub uninterp spec fn xchacha20poly1305_open(
    key: Seq<u8>,
    nonce: Seq<u8>,
    aad: Seq<u8>,
    ciphertext: Seq<u8>,
) -> Option<Seq<u8>>;

/// Hashes `data` with `blake2::Blake2b<U32>` (`new`, `update`, `finalize`).
/// Claims only that the result is the BLAKE2b-256 digest of `data`.
#[verifier::external_body]
fn blake2b_256_digest(data: &[u8]) -> (out: [u8; 32])
    ensures
        out@ == blake2b_256(data@),
{
    let mut h = Blake2b::<U32>::new();
    h.update(data);
    let mut out = [0u8; 32];
    out.copy_from_slice(&h.finalize());
    out
}

/// Encrypts with `chacha20poly1305::XChaCha20Poly1305` through `Aead::encrypt`.
/// Claims what the crate's source shows: the output is the plaintext's length
/// plus the 16-byte tag, and decrypting it under the same key, nonce and AAD
/// gives the plaintext back. The keystream for the message starts at block 1
/// (block 0 keys Poly1305), so a message needing more than `2^32 - 2` blocks
/// of 64 bytes makes the crate panic; `requires` leaves those out, and the
/// `len + 16` bytes it allocates must fit.
#[verifier::external_body]
fn xchacha_encrypt(key: &[u8; 32], nonce: &[u8; 24], aad: &[u8], plaintext: &[u8]) -> (ct: Vec<
    u8,
>)
    requires
        plaintext@.len() <= MAX_MESSAGE_LEN,
        plaintext@.len() + 16 <= isize::MAX,
    ensures
        ct@ == xchacha20poly1305_seal(key@, nonce@, aad@, plaintext@),
        ct@.len() == plaintext@.len() + 16,
        xchacha20poly1305_open(key@, nonce@, aad@, ct@) == Some(plaintext@),
{
    XChaCha20Poly1305::new(Key::from_slice(key)).encrypt(
        XNonce::from_slice(nonce),
        Payload { msg: plaintext, aad },
    ).expect("XChaCha20-Poly1305 encryption cannot fail for valid inputs")
}

/// Decrypts with `chacha20poly1305::XChaCha20Poly1305` through `Aead::decrypt`.
/// Claims what the crate's source shows: a ciphertext shorter than the tag is
/// refused, and an accepted one yields a plaintext 16 bytes shorter. Which
/// ciphertexts authenticate is left to the name. An authentic message part
/// needing more than `2^32 - 2` keystream blocks makes the crate panic, so
/// `requires` bounds the length as for encryption.
#[verifier::external_body]
fn xchacha_decrypt(key: &[u8; 32], nonce: &[u8; 24], aad: &[u8], ciphertext: &[u8]) -> (pt:
    Option<Vec<u8>>)
    requires
        ciphertext@.len() <= MAX_MESSAGE_LEN + 16,
    ensures
        match pt {
            Some(v) => xchacha20poly1305_open(key@, nonce@, aad@, ciphertext@) == Some(v@)
                && v@.len() + 16 == ciphertext@.len(),
            None => xchacha20poly1305_open(key@, nonce@, aad@, ciphertext@) is None,
        },
        ciphertext@.len() < 16 ==> pt is None,
{
    XChaCha20Poly1305::new(Key::from_slice(key)).decrypt(
        XNonce::from_slice(nonce),
        Payload { msg: ciphertext, aad },
    ).ok()
}

/// The session key that a PIN derives.
pub open spec fn key_of_pin(pin: Seq<char>) -> Seq<u8> {
    blake2b_256(KDF_SALT@ + vstd::utf8::encode_utf8(pin))
}

/// Derive the 32-byte session key from the shared PIN.
pub fn derive_key(pin: &str) -> (key: [u8; 32])
    ensures
        key@ == key_of_pin(pin@),
{
    let bytes = pin.as_bytes();
    let mut data: Vec<u8> = Vec::new();
    let mut i: usize = 0;
    while i < 15
        invariant
            0 <= i <= 15,
            data@ == KDF_SALT@.subrange(0, i as int),
        decreases 15 - i,
    {
        data.push(KDF_SALT[i]);
        i = i + 1;
        proof {
            assert(data@ =~= KDF_SALT@.subrange(0, i as int));
        }
    }
    let mut k: usize = 0;
    while k < bytes.len()
        invariant
            0 <= k <= bytes@.len(),
            data@ == KDF_SALT@ + bytes@.subrange(0, k as int),
        decreases bytes@.len() - k,
    {
        data.push(bytes[k]);
        k = k + 1;
        proof {
            assert(data@ =~= KDF_SALT@ + bytes@.subrange(0, k as int));
        }
    }
    proof {
        assert(bytes@.subrange(0, k as int) =~= bytes@);
    }
    blake2b_256_digest(data.as_slice())
}

/// The key of a PIN is the BLAKE2b-256 digest of the salt followed by every
/// byte of the PIN's UTF-8 encoding: the whole PIN can be read back from the
/// hashed message, so different PINs hash different messages.
pub proof fn law_key_hashes_salt_and_whole_pin(pin: Seq<char>)
    ensures
        exists|m: Seq<u8>|
            #![trigger blake2b_256(m)]
            key_of_pin(pin) == blake2b_256(m) && m.len() == KDF_SALT@.len()
                + vstd::utf8::encode_utf8(pin).len() && m.subrange(0, 15) == KDF_SALT@
                && vstd::utf8::decode_utf8(m.subrange(15, m.len() as int)) == pin,
{
    let m = KDF_SALT@ + vstd::utf8::encode_utf8(pin);
    assert(m.subrange(0, 15) =~= KDF_SALT@);
    assert(m.subrange(15, m.len() as int) =~= vstd::utf8::encode_utf8(pin));
    vstd::utf8::encode_utf8_decode_utf8(pin);
    assert(key_of_pin(pin) == blake2b_256(m));
}

/// The nonce of a packet: `seq` and `timestamp_us` little-endian, then zeros.
pub open spec fn nonce_bytes(seq: u32, timestamp_us: u64) -> Seq<u8> {
    le_bytes(seq as nat, 4) + le_bytes(timestamp_us as nat, 8) + Seq::new(12, |i: int| 0u8)
}

/// The nonce carries the whole sequence number and the whole timestamp:
/// bytes 0..4 read little-endian are `seq`, bytes 4..12 are `timestamp_us`,
/// the rest are zero. So distinct packets never share a nonce.
pub proof fn law_nonce_layout(seq: u32, timestamp_us: u64, seq2: u32, timestamp_us2: u64)
    ensures
        nonce_bytes(seq, timestamp_us).len() == 24,
        le_value(nonce_bytes(seq, timestamp_us).subrange(0, 4)) == seq,
        le_value(nonce_bytes(seq, timestamp_us).subrange(4, 12)) == timestamp_us,
        forall|i: int| 12 <= i < 24 ==> #[trigger] nonce_bytes(seq, timestamp_us)[i] == 0,
        nonce_bytes(seq, timestamp_us) == nonce_bytes(seq2, timestamp_us2) ==> seq == seq2
            && timestamp_us == timestamp_us2,
{
    lemma_nonce_fields(seq, timestamp_us);
    lemma_nonce_fields(seq2, timestamp_us2);
}

proof fn lemma_nonce_fields(seq: u32, timestamp_us: u64)
    ensures
        nonce_bytes(seq, timestamp_us).len() == 24,
        le_value(nonce_bytes(seq, timestamp_us).subrange(0, 4)) == seq,
        le_value(nonce_bytes(seq, timestamp_us).subrange(4, 12)) == timestamp_us,
        forall|i: int| 12 <= i < 24 ==> #[trigger] nonce_bytes(seq, timestamp_us)[i] == 0,
{
    let n = nonce_bytes(seq, timestamp_us);
    lemma_le_bytes_len(seq as nat, 4);
    lemma_le_bytes_len(timestamp_us as nat, 8);
    lemma_pow256_values();
    lemma_le_value_of_bytes(seq as nat, 4);
    lemma_le_value_of_bytes(timestamp_us as nat, 8);
    assert(n.subrange(0, 4) =~= le_bytes(seq as nat, 4));
    assert(n.subrange(4, 12) =~= le_bytes(timestamp_us as nat, 8));
}

/// The nonce of a packet.
fn nonce(seq: u32, timestamp_us: u64) -> (n: [u8; 24])
    ensures
        n@ == nonce_bytes(seq, timestamp_us),
{
    let mut n = [0u8; 24];
    let ghost zeros = n@;
    write_le(&mut n, 0, seq as u64, 4);
    write_le(&mut n, 4, timestamp_us, 8);
    proof {
        lemma_le_bytes_len(seq as nat, 4);
        lemma_le_bytes_len(timestamp_us as nat, 8);
        assert(n@ =~= nonce_bytes(seq, timestamp_us));
    }
    n
}

/// What decrypting a packet's payload yields.
pub open spec fn decrypt_result(
    key: Seq<u8>,
    aad: Seq<u8>,
    seq: u32,
    timestamp_us: u64,
    ciphertext: Seq<u8>,
) -> Option<Seq<u8>> {
    xchacha20poly1305_open(key, nonce_bytes(seq, timestamp_us), aad, ciphertext)
}

/// Encrypt `plaintext`, returning ciphertext||tag. `aad` is the packet header.
///
/// Decrypting the result with the same key, header, `seq` and `ts` gives the
/// plaintext back. Messages longer than [`MAX_MESSAGE_LEN`] are beyond what the
/// cipher takes.
pub fn encrypt(key: &[u8; 32], aad: &[u8], seq: u32, ts: u64, plaintext: &[u8]) -> (ct: Vec<u8>)
    requires
        plaintext@.len() <= MAX_MESSAGE_LEN,
        plaintext@.len() + 16 <= isize::MAX,
    ensures
        ct@ == xchacha20poly1305_seal(key@, nonce_bytes(seq, ts), aad@, plaintext@),
        ct@.len() == plaintext@.len() + TAG_LEN,
        decrypt_result(key@, aad@, seq, ts, ct@) == Some(plaintext@),
{
    let n = nonce(seq, ts);
    xchacha_encrypt(key, &n, aad, plaintext)
}

/// Decrypt `ciphertext` (ciphertext||tag). Returns `None` on any
/// authentication failure (wrong PIN, tampering, corruption). Messages longer
/// than [`MAX_MESSAGE_LEN`] are beyond what the cipher takes.
pub fn decrypt(key: &[u8; 32], aad: &[u8], seq: u32, ts: u64, ciphertext: &[u8]) -> (pt: Option<
    Vec<u8>,
>)
    requires
        ciphertext@.len() <= MAX_MESSAGE_LEN + TAG_LEN,
    ensures
        match pt {
            Some(v) => decrypt_result(key@, aad@, seq, ts, ciphertext@) == Some(v@) && v@.len()
                + TAG_LEN == ciphertext@.len(),
            None => decrypt_result(key@, aad@, seq, ts, ciphertext@) is None,
        },
        ciphertext@.len() < TAG_LEN ==> pt is None,
{
    let n = nonce(seq, ts);
    xchacha_decrypt(key, &n, aad, ciphertext)
}

} // verus!
