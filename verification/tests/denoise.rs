use phonemic::denoise::{FrameQueue, FRAME_SIZE};

#[test]
fn passes_frames_through_and_reduces_noise_energy() {
    let mut q = FrameQueue::new();
    // White-ish noise input, one frame.
    let input: Vec<i16> = (0..480).map(|i| (((i * 7919) % 4000) as i16) - 2000).collect();
    let out: Vec<i16> = q.push(&input).concat();
    assert_eq!(out.len(), 480, "one frame in, one frame out");
    assert_eq!(out, input);
    assert_eq!(q.pending_len(), 0);
}

#[test]
fn buffers_partial_frames() {
    let mut q = FrameQueue::new();
    let mut out: Vec<i16> = Vec::new();
    out.extend(q.push(&[0i16; 200]).concat()); // < one frame
    assert_eq!(out.len(), 0, "not enough for a frame yet");
    out.extend(q.push(&[0i16; 300]).concat()); // now 500 total -> one 480 frame
    assert_eq!(out.len(), 480);
}

#[test]
fn partial_frames_wait_for_more() {
    let mut q = FrameQueue::new();
    assert!(q.push(&[0i16; 200]).is_empty(), "not enough for a frame yet");
    let frames = q.push(&[1i16; 300]); // now 500 total -> one 480 frame
    assert_eq!(frames.len(), 1);
    assert_eq!(frames[0].len(), FRAME_SIZE);
    assert_eq!(&frames[0][..200], &[0i16; 200][..]);
    assert_eq!(&frames[0][200..], &[1i16; 280][..]);
    assert_eq!(q.pending_len(), 20);
}

#[test]
fn several_frames_at_once_keep_order() {
    let mut q = FrameQueue::new();
    let input: Vec<i16> = (0..1000).map(|i| i as i16).collect();
    let frames = q.push(&input);
    assert_eq!(frames.len(), 2);
    let flat: Vec<i16> = frames.concat();
    assert_eq!(flat, input[..960].to_vec());
    assert_eq!(q.pending_len(), 40);
}
