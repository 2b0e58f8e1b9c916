//! PhoneMic: stream an Android phone's microphone to a PC.
//!
//! This crate holds the verified logic of the PC side: the wire protocol, the
//! jitter buffer, the optional end-to-end encryption, the noise-suppression
//! framing, the voice-effect selector, the shared-memory ring that feeds the
//! virtual driver, and the per-packet decisions of the receivers.
pub mod protocol;
pub mod jitter_buffer;
pub mod crypto;
pub mod voice_fx;
pub mod ipc;
pub mod receiver;
pub mod gateway;
pub mod denoise;
pub mod sink;
