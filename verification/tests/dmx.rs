//! The universe buffer and its transmission.

use dmx_piggy::dmx::{
    pack_chunk, send, OutOfRange, Universe, CHANNELS, CHUNK_HEADER, DEFAULT_OUT_ENDPOINT,
    MAX_CHUNK, MAX_CHUNK_DATA, OUT_ENDPOINT_CANDIDATES, TAG_COMMIT, TAG_FILL,
};
use dmx_piggy::{Error, Transport};

/// Records each chunk and reassembles the frame the way the firmware would,
/// so a test can assert both the framing and the reconstructed universe.
struct Recorder {
    count: usize,
    tags: [u8; 16],
    offsets: [u16; 16],
    endpoints: [u8; 16],
    rebuilt: [u8; CHANNELS],
    fail_at: usize,
}

impl Recorder {
    fn new() -> Self {
        Self {
            count: 0,
            tags: [0; 16],
            offsets: [0; 16],
            endpoints: [0; 16],
            rebuilt: [0; CHANNELS],
            fail_at: usize::MAX,
        }
    }
}

impl Transport for Recorder {
    type Error = ();
    fn control_out(&mut self, _: u8, _: u8, _: u16, _: u16, _: &[u8]) -> Result<(), ()> {
        Ok(())
    }
    fn control_in(&mut self, _: u8, _: u8, _: u16, _: u16, _: &mut [u8]) -> Result<usize, ()> {
        Ok(0)
    }
    fn bulk_in(&mut self, _: u8, _: &mut [u8]) -> Result<usize, ()> {
        Ok(0)
    }
    fn bulk_out(&mut self, endpoint: u8, data: &[u8]) -> Result<(), ()> {
        if self.count == self.fail_at {
            return Err(());
        }
        let offset = data[1] as usize | (data[2] as usize) << 8;
        let span = &data[CHUNK_HEADER..];
        self.rebuilt[offset..offset + span.len()].copy_from_slice(span);
        let i = self.count;
        self.tags[i] = data[0];
        self.offsets[i] = offset as u16;
        self.endpoints[i] = endpoint;
        self.count += 1;
        Ok(())
    }
}

#[test]
fn chunks_a_universe_into_fill_then_commit() {
    let mut u = Universe::new();
    u.set(1, 255).unwrap(); // channel 1 -> slot 0
    u.set(512, 42).unwrap(); // channel 512 -> slot 511

    let mut rec = Recorder::new();
    send(&mut rec, DEFAULT_OUT_ENDPOINT, &u).unwrap();

    // 512 bytes in 61-byte spans -> 9 chunks.
    assert_eq!(rec.count, 9);
    // All but the last are fill chunks; the last commits.
    assert!(rec.tags[..8].iter().all(|&t| t == TAG_FILL));
    assert_eq!(rec.tags[8], TAG_COMMIT);
    // Offsets tile 0..512 in MAX_CHUNK_DATA steps.
    for i in 0..9 {
        assert_eq!(rec.offsets[i] as usize, i * MAX_CHUNK_DATA);
    }
    // Every chunk went to the DMX endpoint.
    assert!(rec.endpoints[..9].iter().all(|&e| e == 0x02));
    // The reassembled buffer matches the universe (start-code free).
    assert_eq!(&rec.rebuilt[..], u.frame());
    assert_eq!(rec.rebuilt[0], 255);
    assert_eq!(rec.rebuilt[511], 42);
}

#[test]
fn every_slot_survives_transmission() {
    let mut u = Universe::default();
    for (i, slot) in u.channels_mut().iter_mut().enumerate() {
        *slot = (i as u8).wrapping_mul(31).wrapping_add(5);
    }
    let mut rec = Recorder::new();
    rec.rebuilt = [0xCC; CHANNELS];
    send(&mut rec, 0x04, &u).unwrap();
    assert_eq!(&rec.rebuilt, u.channels());
    assert!(rec.endpoints[..9].iter().all(|&e| e == 0x04));
}

#[test]
fn a_failed_chunk_ends_the_frame() {
    let mut rec = Recorder::new();
    rec.fail_at = 3;
    let result = send(&mut rec, DEFAULT_OUT_ENDPOINT, &Universe::new());
    assert_eq!(result, Err(Error::Transport(())));
    assert_eq!(rec.count, 3);
}

#[test]
fn channels_are_addressed_from_one() {
    let mut u = Universe::new();
    assert!(u.channels().iter().all(|&c| c == 0));
    assert_eq!(u.set(0, 1), Err(OutOfRange));
    assert_eq!(u.set(513, 1), Err(OutOfRange));
    assert_eq!(u.set(u16::MAX, 1), Err(OutOfRange));
    assert!(u.channels().iter().all(|&c| c == 0));
    assert_eq!(u.set(7, 77), Ok(()));
    assert_eq!(u.channels()[6], 77);
    assert_eq!(u.channels().iter().filter(|&&c| c != 0).count(), 1);
    assert_eq!(u.clone().frame(), u.frame());
}

#[test]
fn chunks_carry_tag_offset_and_span() {
    let mut u = Universe::new();
    u.set(306, 8).unwrap();
    let mut packet = [0x99u8; MAX_CHUNK];
    assert_eq!(pack_chunk(&u, 305, &mut packet), 64);
    assert_eq!(&packet[..5], &[0x30, 0x31, 0x01, 8, 0]);
    let mut packet = [0x99u8; MAX_CHUNK];
    assert_eq!(pack_chunk(&u, 511, &mut packet), 4);
    assert_eq!(&packet[..5], &[0x31, 0xFF, 0x01, 0, 0x99]);
    assert_eq!(pack_chunk(&u, 451, &mut packet), 64);
    assert_eq!(packet[0], TAG_COMMIT);
    assert_eq!(pack_chunk(&u, 450, &mut packet), 64);
    assert_eq!(packet[0], TAG_FILL);
}

#[test]
fn the_default_endpoint_leads_the_candidates() {
    assert_eq!(OUT_ENDPOINT_CANDIDATES[0], DEFAULT_OUT_ENDPOINT);
    assert_eq!(OUT_ENDPOINT_CANDIDATES, [0x02, 0x04, 0x05]);
}
