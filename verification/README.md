# phonemic

PhoneMic streams an Android phone's microphone to a PC. This crate is the PC
side, written in Verus: the logic is a library whose behaviour is stated in
`requires` / `ensures` contracts and proved, and the programs around it are
ordinary Rust.

## Layout

- `src/` — the verified library.
  - `protocol` — the 18-byte packet header: `encode`, `decode`, and the laws
    that decoding inverts encoding and vice versa.
  - `jitter_buffer` — the reorder / loss-concealment ring, modelled as a
    state machine (`insert_step`, `pop_step`) with its invariant and laws.
  - `crypto` — PIN-derived keys and XChaCha20-Poly1305 payload encryption
    (BLAKE2b and the AEAD are called in the `blake2` and `chacha20poly1305`
    crates through small trusted wrappers).
  - `receiver` — what a receiver does with each datagram: PCM16 samples,
    peak level, loss accounting, decryption, latency measurement.
  - `gateway` — which WebSocket messages reach the jitter buffer and what each
    playout tick sends to the sink.
  - `ipc` — the shared-memory sample ring that feeds the virtual driver.
  - `denoise` — cutting the sample stream into whole noise-suppression frames.
  - `voice_fx` — the voice-effect selector.
  - `sink` — choosing the output device by name.
- `tests/` — tests of the library.
- `app/` — the programs: console receiver, desktop window, web gateway,
  software phone and the interoperability checks. Audio I/O (`cpal`,
  `ringbuf`), networking, the UI, RNNoise and the floating-point voice effects
  live here.
