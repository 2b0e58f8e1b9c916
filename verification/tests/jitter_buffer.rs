use phonemic::jitter_buffer::{Insert, JitterBuffer, Pop};

fn payload(tag: u8) -> Vec<u8> {
    vec![tag; 4]
}

/// Drain and collect the payloads' first byte, stopping at the first Empty.
fn drain_tags(jb: &mut JitterBuffer, steps: usize) -> Vec<Option<u8>> {
    let mut out = Vec::new();
    for _ in 0..steps {
        match jb.pop() {
            Pop::Frame(p) => out.push(Some(p[0])),
            Pop::Conceal => out.push(None),
            Pop::Empty => break,
        }
    }
    out
}

#[test]
fn in_order_after_priming() {
    let mut jb = JitterBuffer::new(8, 2);
    assert_eq!(jb.pop(), Pop::Empty); // nothing inserted yet
    jb.insert(0, payload(0));
    assert_eq!(jb.pop(), Pop::Empty); // below target_depth, still priming
    jb.insert(1, payload(1));
    jb.insert(2, payload(2));
    assert_eq!(drain_tags(&mut jb, 3), vec![Some(0), Some(1), Some(2)]);
}

#[test]
fn reorders_out_of_order_arrivals() {
    let mut jb = JitterBuffer::new(8, 3);
    // Arrive 2, 0, 1 — should play 0, 1, 2.
    jb.insert(2, payload(2));
    jb.insert(0, payload(0));
    jb.insert(1, payload(1));
    assert_eq!(drain_tags(&mut jb, 3), vec![Some(0), Some(1), Some(2)]);
}

#[test]
fn conceals_a_lost_packet() {
    let mut jb = JitterBuffer::new(8, 3);
    // seq 2 never arrives.
    jb.insert(0, payload(0));
    jb.insert(1, payload(1));
    jb.insert(3, payload(3));
    // 0, 1, then conceal for the missing 2, then 3.
    assert_eq!(
        drain_tags(&mut jb, 4),
        vec![Some(0), Some(1), None, Some(3)]
    );
    assert_eq!(jb.stats().concealed, 1);
    assert_eq!(jb.stats().emitted, 3);
}

#[test]
fn drops_late_packet() {
    let mut jb = JitterBuffer::new(8, 1);
    jb.insert(0, payload(0));
    jb.insert(1, payload(1));
    assert_eq!(jb.pop(), Pop::Frame(payload(0)));
    assert_eq!(jb.pop(), Pop::Frame(payload(1)));
    // seq 0 shows up late — cursor is already at 2.
    assert_eq!(jb.insert(0, payload(0)), Insert::TooLate);
    assert_eq!(jb.stats().too_late, 1);
}

#[test]
fn ignores_duplicate() {
    let mut jb = JitterBuffer::new(8, 2);
    assert_eq!(jb.insert(5, payload(5)), Insert::Buffered);
    assert_eq!(jb.insert(5, payload(5)), Insert::Duplicate);
    assert_eq!(jb.len(), 1);
    assert_eq!(jb.stats().duplicates, 1);
}

#[test]
fn underrun_then_recovers() {
    let mut jb = JitterBuffer::new(8, 1);
    jb.insert(0, payload(0));
    assert_eq!(jb.pop(), Pop::Frame(payload(0)));
    // Buffer empty now → underrun, cursor holds at seq 1.
    assert_eq!(jb.pop(), Pop::Empty);
    assert_eq!(jb.stats().underruns, 1);
    // The delayed seq-1 arrives and plays.
    jb.insert(1, payload(1));
    assert_eq!(jb.pop(), Pop::Frame(payload(1)));
}

#[test]
fn forward_jump_slides_window_and_drops_stale() {
    let mut jb = JitterBuffer::new(4, 1);
    jb.insert(0, payload(0));
    jb.insert(1, payload(1));
    // Jump way ahead: capacity 4, so window becomes [7-4+1 .. ] = [4..8).
    // seq 0 and 1 fall out and are dropped.
    match jb.insert(7, payload(7)) {
        Insert::Overflowed { dropped } => assert_eq!(dropped, 2),
        other => panic!("expected Overflowed, got {other:?}"),
    }
    assert_eq!(jb.stats().overflow_dropped, 2);
    // Next playable frame is the one we jumped to.
    assert_eq!(jb.pop(), Pop::Frame(payload(7)));
}

#[test]
fn does_not_emit_before_target_depth() {
    let mut jb = JitterBuffer::new(8, 4);
    for s in 0..3 {
        jb.insert(s, payload(s as u8));
    }
    // Only 3 buffered, target is 4 → still priming.
    assert_eq!(jb.pop(), Pop::Empty);
    jb.insert(3, payload(3));
    // Now primed; drains all four in order.
    assert_eq!(
        drain_tags(&mut jb, 4),
        vec![Some(0), Some(1), Some(2), Some(3)]
    );
}

#[test]
fn zero_target_depth_emits_immediately() {
    let mut jb = JitterBuffer::new(4, 0);
    jb.insert(0, payload(0));
    assert_eq!(jb.pop(), Pop::Frame(payload(0)));
}

#[test]
fn full_capacity_window_all_present() {
    let mut jb = JitterBuffer::new(4, 4);
    for s in 0..4 {
        jb.insert(s, payload(s as u8));
    }
    assert_eq!(jb.len(), 4);
    assert_eq!(
        drain_tags(&mut jb, 4),
        vec![Some(0), Some(1), Some(2), Some(3)]
    );
}

// ---- further cases ----

#[test]
fn frames_are_accounted_for() {
    // buffered == queued + emitted + dropped by a slide, after a mixed run.
    let mut jb = JitterBuffer::new(4, 1);
    for s in [0u32, 1, 2, 9, 10, 3, 9] {
        jb.insert(s, payload(s as u8));
        jb.pop();
    }
    let st = jb.stats();
    assert_eq!(st.buffered, jb.len() as u64 + st.emitted + st.overflow_dropped);
    assert!(jb.len() <= 4);
}

#[test]
fn slide_without_loss_keeps_cursor_at_window_start() {
    // A jump past an empty window drops nothing and reports Buffered.
    let mut jb = JitterBuffer::new(4, 1);
    jb.insert(0, payload(0));
    assert_eq!(jb.pop(), Pop::Frame(payload(0)));
    assert_eq!(jb.insert(10, payload(10)), Insert::Buffered);
    assert_eq!(jb.stats().overflow_dropped, 0);
    // Cursor moved to 10 - 4 + 1 = 7: 7, 8, 9 are concealed, then 10 plays.
    assert_eq!(drain_tags(&mut jb, 4), vec![None, None, None, Some(10)]);
}

#[test]
fn early_packet_before_playout_pulls_cursor_back() {
    let mut jb = JitterBuffer::new(8, 2);
    jb.insert(5, payload(5));
    jb.insert(4, payload(4));
    assert_eq!(drain_tags(&mut jb, 2), vec![Some(4), Some(5)]);
    // After playout started, an earlier packet is late.
    assert_eq!(jb.insert(3, payload(3)), Insert::TooLate);
}

#[test]
fn is_empty_and_capacity_getters() {
    let mut jb = JitterBuffer::new(6, 2);
    assert!(jb.is_empty());
    assert_eq!(jb.capacity(), 6);
    jb.insert(1, payload(1));
    assert!(!jb.is_empty());
    assert_eq!(jb.len(), 1);
}

#[test]
fn early_packet_that_does_not_fit_the_window_is_too_late() {
    let mut jb = JitterBuffer::new(4, 1);
    assert_eq!(jb.insert(3, payload(3)), Insert::Buffered);
    assert_eq!(jb.insert(6, payload(6)), Insert::Buffered);
    // 2 cannot share a 4-slot window with the queued 6.
    assert_eq!(jb.insert(2, payload(2)), Insert::TooLate);
    assert_eq!(jb.len(), 2);
    assert_eq!(drain_tags(&mut jb, 4), vec![Some(3), None, None, Some(6)]);
    // 4 was played past.
    assert_eq!(jb.insert(4, payload(4)), Insert::TooLate);
}

#[test]
fn early_packets_that_would_strand_a_frame_are_too_late() {
    let mut jb = JitterBuffer::new(8, 3);
    assert_eq!(jb.insert(5, payload(5)), Insert::Buffered);
    assert_eq!(jb.insert(12, payload(12)), Insert::Buffered);
    // 0 would leave 12 out of reach: too late.
    assert_eq!(jb.insert(0, payload(0)), Insert::TooLate);
    // So would 4 (12 - 4 is a whole window).
    assert_eq!(jb.insert(4, payload(4)), Insert::TooLate);
    assert_eq!(jb.insert(6, payload(6)), Insert::Buffered);
    assert_eq!(
        drain_tags(&mut jb, 8),
        vec![Some(5), Some(6), None, None, None, None, None, Some(12)]
    );
}

#[test]
fn early_packet_within_the_window_pulls_the_cursor_back() {
    let mut jb = JitterBuffer::new(8, 3);
    assert_eq!(jb.insert(5, payload(5)), Insert::Buffered);
    assert_eq!(jb.insert(7, payload(7)), Insert::Buffered);
    assert_eq!(jb.insert(3, payload(3)), Insert::Buffered);
    assert_eq!(
        drain_tags(&mut jb, 5),
        vec![Some(3), None, Some(5), None, Some(7)]
    );
}
