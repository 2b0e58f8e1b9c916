use phonemic::gateway::{
    accept_ws_frame, playout_tick, ws_frame, FRAME_SAMPLES, JB_CAPACITY, JB_TARGET_DEPTH,
};
use phonemic::jitter_buffer::JitterBuffer;
use phonemic::protocol::{encode, Codec, HEADER_LEN};

fn packet(codec: Codec, encrypted: bool, seq: u32, payload: &[u8]) -> Vec<u8> {
    let mut buf = vec![0u8; HEADER_LEN + payload.len()];
    encode(codec, encrypted, seq, 0, payload, &mut buf).unwrap();
    buf
}

#[test]
fn only_whole_pcm16_frames_are_queued() {
    assert_eq!(ws_frame(&packet(Codec::Pcm16, false, 7, &[1, 0])), Some((7, vec![1, 0])));
    assert_eq!(ws_frame(&packet(Codec::Opus, false, 7, &[1, 0])), None);
    assert_eq!(ws_frame(&packet(Codec::Pcm16, false, 7, &[1, 0, 2])), None);
    assert_eq!(ws_frame(&[0u8; 4]), None);
}

#[test]
fn playout_plays_reordered_frames_and_conceals_loss() {
    let mut jb = JitterBuffer::new(JB_CAPACITY, JB_TARGET_DEPTH);
    // Frames 0, 1, 3 arrive as 1, 0, 3; frame 2 is lost.
    assert!(accept_ws_frame(&mut jb, &packet(Codec::Pcm16, false, 1, &[1, 0])));
    assert!(accept_ws_frame(&mut jb, &packet(Codec::Pcm16, false, 0, &[0, 0])));
    assert!(!accept_ws_frame(&mut jb, &packet(Codec::Opus, false, 2, &[2, 0])));
    assert!(accept_ws_frame(&mut jb, &packet(Codec::Pcm16, false, 3, &[3, 0])));
    assert_eq!(playout_tick(&mut jb), Some(vec![0]));
    assert_eq!(playout_tick(&mut jb), Some(vec![1]));
    assert_eq!(playout_tick(&mut jb), Some(vec![0; FRAME_SAMPLES]));
    assert_eq!(playout_tick(&mut jb), Some(vec![3]));
    assert_eq!(playout_tick(&mut jb), None);
}

#[test]
fn priming_gives_nothing_to_play() {
    let mut jb = JitterBuffer::new(JB_CAPACITY, JB_TARGET_DEPTH);
    assert_eq!(playout_tick(&mut jb), None);
    assert!(accept_ws_frame(&mut jb, &packet(Codec::Pcm16, false, 0, &[0, 1])));
    assert_eq!(playout_tick(&mut jb), None);
}

#[test]
fn sequence_numbers_at_the_top_are_dropped() {
    let mut jb = JitterBuffer::new(JB_CAPACITY, JB_TARGET_DEPTH);
    assert!(!accept_ws_frame(&mut jb, &packet(Codec::Pcm16, false, u32::MAX - 3, &[0, 0])));
    assert!(jb.is_empty());
}
