use phonemic::ipc::{Producer, Ring, ABI_VERSION, CAPACITY, CHANNELS, SAMPLE_RATE};

/// The reading side of the ring, as the driver consumes it.
fn consume(ring: &mut Ring, out: &mut [i16]) -> usize {
    let write = ring.write_index;
    let read = ring.read_index;
    let avail = (write - read) as usize;
    let n = out.len().min(avail);
    for (i, slot_out) in out[..n].iter_mut().enumerate() {
        let slot = ((read + i as u64) % CAPACITY as u64) as usize;
        *slot_out = ring.samples[slot];
    }
    ring.read_index = read + n as u64;
    n
}

fn fresh() -> Box<Ring> {
    // Zeroed ring, header initialised — like a freshly-mapped section.
    let mut r = Ring::zeroed();
    r.init_header();
    r
}

#[test]
fn header_validation() {
    let mut r = fresh();
    assert!(r.header_ok());
    r.abi_version = 999;
    assert!(!r.header_ok());
}

#[test]
fn push_pop_roundtrip() {
    let mut prod = Producer::new(fresh());

    assert_eq!(prod.push(&[1, 2, 3, 4]), 4);
    assert_eq!(prod.occupied(), 4);
    let mut out = [0i16; 4];
    assert_eq!(consume(prod.ring_mut(), &mut out), 4);
    assert_eq!(out, [1, 2, 3, 4]);
    assert_eq!(prod.occupied(), 0);
}

#[test]
fn backpressure_when_full() {
    let mut prod = Producer::new(fresh());

    let big = vec![7i16; CAPACITY + 100];
    // Only CAPACITY fit; the extra 100 are dropped, not blocked.
    assert_eq!(prod.push(&big), CAPACITY);
    assert_eq!(prod.vacant(), 0);
    assert_eq!(prod.push(&[1, 2, 3]), 0);
}

#[test]
fn wraps_around_correctly() {
    let mut prod = Producer::new(fresh());

    // Advance both indices near the end so the next write straddles the seam.
    let filler = vec![0i16; CAPACITY - 5];
    prod.push(&filler);
    let mut sink = vec![0i16; CAPACITY - 5];
    consume(prod.ring_mut(), &mut sink);

    // Now write 10 samples across the wrap point and read them back in order.
    let data: Vec<i16> = (1..=10).collect();
    assert_eq!(prod.push(&data), 10);
    let mut out = [0i16; 10];
    assert_eq!(consume(prod.ring_mut(), &mut out), 10);
    assert_eq!(&out[..], &data[..]);
}

// ---- further cases ----

#[test]
fn init_header_sets_expected_values() {
    let r = fresh();
    assert_eq!(r.abi_version, ABI_VERSION);
    assert_eq!(r.capacity as usize, CAPACITY);
    assert_eq!(r.sample_rate, SAMPLE_RATE);
    assert_eq!(r.channels, CHANNELS);
    assert_eq!(r.write_index, 0);
    assert_eq!(r.read_index, 0);
    let z = Ring::zeroed();
    assert!(!z.header_ok());
}

#[test]
fn partial_push_when_nearly_full() {
    let mut prod = Producer::new(fresh());
    assert_eq!(prod.push(&vec![1i16; CAPACITY - 3]), CAPACITY - 3);
    assert_eq!(prod.vacant(), 3);
    assert_eq!(prod.push(&[5, 6, 7, 8, 9]), 3);
    assert_eq!(prod.ring().write_index, CAPACITY as u64);
    // Unread samples were not overwritten.
    assert_eq!(prod.ring().samples[0], 1);
    assert_eq!(prod.ring().samples[CAPACITY - 1], 7);
}
