//! The receive path.

use dmx_piggy::dmx::CHANNELS;
use dmx_piggy::receive::{
    filter_command, Progress, Reassembler, EVENT_CAP, PACKET_LEN, RECEIVE_ENDPOINT, TAG_CONT,
    TAG_FIRST, TAG_LAST,
};
use dmx_piggy::{Error, Receiver, RxEventKind, RxStats, Transport};

/// Build the nine 64-byte packets the firmware would send for one full
/// 512-channel frame: `0x40`, seven `0x41`, then `0x42` with 8 channel bytes
/// and a 4-byte trailer. Each packet is a full 64-byte transfer.
fn frame_packets(source: &[u8; CHANNELS]) -> [[u8; PACKET_LEN]; 9] {
    let mut packets = [[0u8; PACKET_LEN]; 9];
    let mut offset = 0;
    for (p, packet) in packets.iter_mut().enumerate() {
        let span = core::cmp::min(PACKET_LEN - 1, CHANNELS - offset);
        packet[0] = if p == 0 {
            TAG_FIRST
        } else if offset + span >= CHANNELS {
            TAG_LAST
        } else {
            TAG_CONT
        };
        packet[1..1 + span].copy_from_slice(&source[offset..offset + span]);
        // Last packet's trailer bytes: distinctive junk that must be ignored.
        if packet[0] == TAG_LAST {
            for b in &mut packet[1 + span..1 + span + 4] {
                *b = 0xAB;
            }
        }
        offset += span;
    }
    packets
}

/// Replays a fixed script of packets on the receive endpoint, one per
/// `bulk_in` call, after first reporting `lead_timeouts` idle reads
/// (`Ok(0)`); once exhausted it reports timeouts too.
struct Playback<'a> {
    packets: &'a [[u8; PACKET_LEN]],
    idx: usize,
    lead_timeouts: usize,
    /// Inject a single extra timeout just before the packet at this index.
    timeout_before: usize,
    /// Deliver the packet at index `.0` truncated to `.1` bytes.
    short_at: Option<(usize, usize)>,
    /// Fail one read, just before the packet at this index.
    fail_at: usize,
    /// Every bulk OUT write.
    commands: Vec<(u8, Vec<u8>)>,
}

impl<'a> Playback<'a> {
    fn new(packets: &'a [[u8; PACKET_LEN]]) -> Self {
        Self {
            packets,
            idx: 0,
            lead_timeouts: 0,
            timeout_before: usize::MAX,
            short_at: None,
            fail_at: usize::MAX,
            commands: Vec::new(),
        }
    }
}

impl Transport for Playback<'_> {
    type Error = ();
    fn control_out(&mut self, _: u8, _: u8, _: u16, _: u16, _: &[u8]) -> Result<(), ()> {
        Ok(())
    }
    fn control_in(&mut self, _: u8, _: u8, _: u16, _: u16, _: &mut [u8]) -> Result<usize, ()> {
        Ok(0)
    }
    fn bulk_out(&mut self, endpoint: u8, data: &[u8]) -> Result<(), ()> {
        self.commands.push((endpoint, data.to_vec()));
        Ok(())
    }
    fn bulk_in(&mut self, endpoint: u8, buf: &mut [u8]) -> Result<usize, ()> {
        assert_eq!(endpoint, RECEIVE_ENDPOINT);
        if self.lead_timeouts > 0 {
            self.lead_timeouts -= 1;
            return Ok(0); // idle endpoint: nothing queued yet
        }
        if self.idx == self.timeout_before {
            self.timeout_before = usize::MAX; // one-shot
            return Ok(0); // injected mid-stream timeout
        }
        if self.idx == self.fail_at {
            self.fail_at = usize::MAX; // one-shot
            return Err(());
        }
        if self.idx >= self.packets.len() {
            return Ok(0); // exhausted: behave like an idle endpoint
        }
        let packet = &self.packets[self.idx];
        let mut n = packet.len().min(buf.len());
        if let Some((at, short_len)) = self.short_at {
            if at == self.idx {
                n = n.min(short_len);
            }
        }
        self.idx += 1;
        buf[..n].copy_from_slice(&packet[..n]);
        Ok(n)
    }
}

fn ramp() -> [u8; CHANNELS] {
    let mut src = [0u8; CHANNELS];
    for (i, b) in src.iter_mut().enumerate() {
        *b = (i as u8).wrapping_mul(7).wrapping_add(3);
    }
    src
}

#[test]
fn reassembles_a_full_frame_and_discards_the_trailer() {
    let src = ramp();
    let packets = frame_packets(&src);
    let mut rx = Receiver::new(Playback::new(&packets));

    let frame = rx.next_frame().unwrap();
    // Every channel round-trips, with channel n at slot n-1 (index n-1).
    assert_eq!(frame.channels(), &src);
    // The 4-byte trailer past the last channel never leaked into the frame.
    assert_eq!(frame.channels()[CHANNELS - 1], src[CHANNELS - 1]);
}

#[test]
fn timeouts_before_the_frame_are_absorbed() {
    // Idle reads (Ok(0)) before the frame must be skipped, not mistaken for a
    // frame boundary: the same clean frame still reassembles after them.
    let src = ramp();
    let packets = frame_packets(&src);
    let mut pb = Playback::new(&packets);
    pb.lead_timeouts = 3;
    let mut rx = Receiver::new(pb);

    let frame = rx.next_frame().unwrap();
    assert_eq!(frame.channels(), &src);
    // The three idle reads were counted, and one frame completed.
    assert_eq!(rx.stats().timeouts, 3);
    assert_eq!(rx.stats().frames, 1);
}

#[test]
fn resyncs_on_the_first_tag_after_garbage() {
    let src = ramp();
    // A stray continuation packet (no preceding 0x40), and behind it a clean frame.
    let mut script = [[0u8; PACKET_LEN]; 10];
    script[0][0] = TAG_CONT;
    for b in &mut script[0][1..PACKET_LEN] {
        *b = 0xFF; // garbage that must not appear in the frame
    }
    script[1..].copy_from_slice(&frame_packets(&src));
    let mut rx = Receiver::new(Playback::new(&script));

    let frame = rx.next_frame().unwrap();
    assert_eq!(frame.channels(), &src);
    // The stray continuation before any 0x40 was counted as an orphan, and
    // the event kept its payload head for identification.
    assert_eq!(rx.stats().orphans, 1);
    let events = rx.events();
    assert_eq!(events.len(), 1);
    assert_eq!(events[0].kind, RxEventKind::Orphan);
    assert_eq!(events[0].tag, TAG_CONT);
    assert_eq!(events[0].head, [0xFF; 8]);
    rx.clear_events();
    assert!(rx.events().is_empty());
}

#[test]
fn try_next_frame_returns_none_when_idle() {
    // No packets at all: the poll variant reports "nothing yet" instead of
    // spinning, and counts the timeout.
    let mut rx = Receiver::new(Playback::new(&[]));
    assert!(rx.try_next_frame().unwrap().is_none());
    assert_eq!(rx.stats().timeouts, 1);
    assert_eq!(rx.stats().frames, 0);
}

#[test]
fn try_next_frame_keeps_a_partial_frame_across_a_timeout() {
    // A timeout in the middle of a frame's packet run must not abandon the
    // partial: the next poll picks up where it left off and completes the
    // same frame. This is what makes polling equivalent to next_frame.
    let src = ramp();
    let packets = frame_packets(&src);
    let mut pb = Playback::new(&packets);
    pb.timeout_before = 4; // timeout between packets 3 and 4, mid-frame
    let mut rx = Receiver::new(pb);

    assert!(rx.try_next_frame().unwrap().is_none()); // hit the gap
    let frame = rx.try_next_frame().unwrap().expect("frame completes");
    assert_eq!(frame.channels(), &src);
    assert_eq!(rx.stats().timeouts, 1);
    assert_eq!(rx.stats().resyncs, 0); // the partial was never discarded
}

#[test]
fn a_new_first_tag_abandons_a_partial_frame() {
    let stale = [0x11u8; CHANNELS];
    let fresh = ramp();
    // First two packets of a frame that never finishes, and a whole new one.
    let stale_packets = frame_packets(&stale);
    let mut script = [[0u8; PACKET_LEN]; 11];
    script[0] = stale_packets[0]; // 0x40 + 63 stale bytes
    script[1] = stale_packets[1]; // 0x41 + 63 stale bytes
    script[2..].copy_from_slice(&frame_packets(&fresh));
    let mut rx = Receiver::new(Playback::new(&script));

    let frame = rx.next_frame().unwrap();
    assert_eq!(frame.channels(), &fresh);
    // Abandoning the partial (a 0x40 mid-frame) was counted as a resync,
    // and the event recorded how far the dead frame had progressed plus
    // its head bytes, so the abandoned frame stays identifiable.
    assert_eq!(rx.stats().resyncs, 1);
    let events = rx.events();
    assert_eq!(events.len(), 1);
    assert_eq!(events[0].kind, RxEventKind::Resync);
    assert_eq!(events[0].got, 126); // two 63-byte spans were gathered
    assert_eq!(events[0].head, [0x11; 8]); // the abandoned frame's first bytes
}

#[test]
fn a_rearmed_final_packet_is_stale_not_orphan() {
    // The device sometimes re-arms and re-sends the 0x42 that closed the
    // previous frame, byte for byte. That must count as stale_last, an
    // extra tail of a frame already received intact, not as an orphan.
    let src = ramp();
    let packets = frame_packets(&src);
    let mut script = [[0u8; PACKET_LEN]; 10];
    script[..9].copy_from_slice(&packets);
    script[9] = packets[8]; // the byte-identical re-send, trailer and all
    let mut rx = Receiver::new(Playback::new(&script));

    let frame = rx.next_frame().unwrap().clone();
    assert_eq!(frame.channels(), &src);
    // Poll once more: the stale packet is absorbed, no frame produced.
    assert!(rx.try_next_frame().unwrap().is_none());
    assert_eq!(rx.stats().stale_last, 1);
    assert_eq!(rx.stats().orphans, 0);
    let events = rx.events();
    assert_eq!(events.len(), 1);
    assert_eq!(events[0].kind, RxEventKind::StaleLast);

    // A 0x42 that does NOT match the previous final packet is still a
    // genuine orphan (the tail of some frame that lost its start).
    let mut other = packets[8];
    other[1] ^= 0xFF;
    let script2 = [other];
    let mut playback = Playback::new(&script2);
    playback.lead_timeouts = 0;
    // A fresh receiver has no closing packet to compare with, so the packet
    // is an orphan there too.
    let mut rx2 = Receiver::new(playback);
    assert!(rx2.try_next_frame().unwrap().is_none());
    assert_eq!(rx2.stats().orphans, 1);
    assert_eq!(rx2.stats().stale_last, 0);
}

#[test]
fn unknown_tags_and_short_packets_are_recorded() {
    let src = ramp();
    // An alien tag, and behind it a clean frame whose middle packet is short.
    let mut script = [[0u8; PACKET_LEN]; 10];
    script[0][0] = 0x7E; // alien tag
    script[1..].copy_from_slice(&frame_packets(&src));
    let mut pb = Playback::new(&script);
    pb.short_at = Some((4, 10)); // packet index 4 delivered as 10 bytes
    let mut rx = Receiver::new(pb);

    // The frame still completes (the short packet costs channel bytes, so
    // the tail shifts, not asserted here); what matters is that both
    // anomalies were counted and recorded.
    let _ = rx.try_next_frame();
    assert_eq!(rx.stats().unknown_tags, 1);
    assert_eq!(rx.stats().short_packets, 1);
    let events = rx.events();
    assert!(events.iter().any(|e| e.kind == RxEventKind::UnknownTag));
    assert!(events.iter().any(|e| e.kind == RxEventKind::ShortPacket));
}

#[test]
fn an_orphan_differs_from_the_closing_packet_on_the_same_receiver() {
    let src = ramp();
    let packets = frame_packets(&src);
    let mut script = [[0u8; PACKET_LEN]; 10];
    script[..9].copy_from_slice(&packets);
    script[9] = packets[8];
    script[9][63] ^= 0x01; // past the trailer, but not byte-identical
    let mut rx = Receiver::new(Playback::new(&script));
    assert!(rx.next_frame().is_ok());
    assert!(rx.try_next_frame().unwrap().is_none());
    assert_eq!(rx.stats().stale_last, 0);
    assert_eq!(rx.stats().orphans, 1);
    assert_eq!(rx.events()[0].head[0], src[504]);
}

#[test]
fn a_short_frame_holds_nothing_of_an_abandoned_one() {
    // 63 bytes of a frame that dies, and a new frame of one byte and no more.
    let mut dead = [0x22u8; PACKET_LEN];
    dead[0] = TAG_FIRST;
    let mut first = [0u8; PACKET_LEN];
    first[0] = TAG_FIRST;
    first[1] = 0x77;
    let mut last = [0u8; PACKET_LEN];
    last[0] = TAG_LAST;
    let mut rx = Reassembler::new();
    assert!(matches!(rx.accept(&dead, PACKET_LEN), Progress::Pending));
    assert!(matches!(rx.accept(&first, 2), Progress::Pending));
    match rx.accept(&last, 1) {
        Progress::Frame(universe) => {
            let mut expected = [0u8; CHANNELS];
            expected[0] = 0x77;
            assert_eq!(universe.channels(), &expected);
        }
        _ => panic!("the last tag completes the frame"),
    }
    assert_eq!(rx.stats().resyncs, 1);
    assert_eq!(rx.stats().short_packets, 2);
    let kinds: Vec<RxEventKind> = rx.events().iter().map(|e| e.kind).collect();
    assert_eq!(
        kinds,
        vec![RxEventKind::ShortPacket, RxEventKind::Resync, RxEventKind::ShortPacket]
    );
    assert_eq!(rx.events()[0].len, 2);
    assert_eq!(rx.events()[0].got, 63);
    assert_eq!(rx.events()[2].got, 1);
}

#[test]
fn a_full_frame_completes_without_a_last_tag() {
    let mut packet = [0x33u8; PACKET_LEN];
    packet[0] = TAG_FIRST;
    let mut rx = Reassembler::new();
    assert!(matches!(rx.accept(&packet, PACKET_LEN), Progress::Pending));
    packet[0] = TAG_CONT;
    for _ in 0..7 {
        assert!(matches!(rx.accept(&packet, PACKET_LEN), Progress::Pending));
    }
    match rx.accept(&packet, PACKET_LEN) {
        Progress::Frame(universe) => assert_eq!(universe.channels(), &[0x33; CHANNELS]),
        _ => panic!("512 channels complete the frame"),
    }
    // With the frame complete, a further continuation is an orphan.
    assert!(matches!(rx.accept(&packet, PACKET_LEN), Progress::Pending));
    assert_eq!(rx.stats().orphans, 1);
    assert_eq!(rx.stats().frames, 1);
}

#[test]
fn the_event_ring_counts_what_it_cannot_hold() {
    let packet = [0x7Eu8; PACKET_LEN];
    let mut rx = Reassembler::new();
    for _ in 0..EVENT_CAP + 3 {
        assert!(matches!(rx.accept(&packet, PACKET_LEN), Progress::Pending));
    }
    assert_eq!(rx.events().len(), EVENT_CAP);
    assert_eq!(rx.stats().events_dropped, 3);
    assert_eq!(rx.stats().unknown_tags, 19);
    rx.clear_events();
    assert!(matches!(rx.accept(&packet, PACKET_LEN), Progress::Pending));
    assert_eq!(rx.events().len(), 1);
    rx.reset_stats();
    assert_eq!(rx.stats(), RxStats::default());
    assert_eq!(rx.events().len(), 1);
}

#[test]
fn reset_and_clear_do_not_touch_a_partial_frame() {
    let src = ramp();
    let packets = frame_packets(&src);
    let mut pb = Playback::new(&packets);
    pb.timeout_before = 5;
    let mut rx = Receiver::new(pb);
    assert!(rx.try_next_frame().unwrap().is_none());
    rx.reset_stats();
    rx.clear_events();
    let frame = rx.try_next_frame().unwrap().unwrap();
    assert_eq!(frame.channels(), &src);
    assert_eq!(rx.stats().timeouts, 0);
    assert_eq!(rx.stats().frames, 1);
}

#[test]
fn next_frame_waits_through_idle_reads_and_reads_no_further() {
    let src = ramp();
    let packets = frame_packets(&src);
    let mut script = [[0u8; PACKET_LEN]; 10];
    script[..9].copy_from_slice(&packets);
    script[9] = packets[0];
    let mut pb = Playback::new(&script);
    pb.lead_timeouts = 2000;
    pb.timeout_before = 8;
    let mut rx = Receiver::new(pb);
    assert_eq!(rx.next_frame().unwrap().channels(), &src);
    assert_eq!(rx.stats().timeouts, 2001);
    assert_eq!(rx.release().idx, 9);
}

#[test]
fn unknown_tags_anywhere_leave_the_frames_as_they_are() {
    let src = ramp();
    let packets = frame_packets(&src);
    let mut alien = [0x99u8; PACKET_LEN];
    alien[0] = 0x43;
    let mut script = Vec::new();
    for packet in &packets {
        script.push(alien);
        script.push(*packet);
    }
    script.push(alien);
    script.push(packets[8]); // re-sent, though an unknown packet came between
    let mut rx = Receiver::new(Playback::new(&script));
    assert_eq!(rx.next_frame().unwrap().channels(), &src);
    assert!(rx.try_next_frame().unwrap().is_none());
    let stats = rx.stats();
    assert_eq!((stats.frames, stats.resyncs, stats.orphans, stats.stale_last), (1, 0, 0, 1));
    assert_eq!(stats.unknown_tags, 10);
}

#[test]
fn events_account_for_every_anomaly() {
    let packets = frame_packets(&ramp());
    let mut alien = packets[1];
    alien[0] = 0x7E;
    let mut rx = Reassembler::new();
    for _ in 0..6 {
        for (packet, n) in [
            (&packets[4], 64),
            (&alien, 12),
            (&packets[0], 64),
            (&packets[0], 20),
            (&packets[8], 64),
            (&packets[8], 64),
        ] {
            let _ = rx.accept(packet, n);
            let stats = rx.stats();
            let sum = stats.resyncs
                + stats.orphans
                + stats.stale_last
                + stats.unknown_tags
                + stats.short_packets;
            assert_eq!(rx.events().len() as u32 + stats.events_dropped, sum);
            assert_eq!(rx.events().len(), (sum as usize).min(EVENT_CAP));
        }
    }
    assert!(rx.stats().events_dropped > 0);
}

#[test]
fn a_failed_read_keeps_the_partial_frame() {
    let src = ramp();
    let packets = frame_packets(&src);
    let mut pb = Playback::new(&packets);
    pb.fail_at = 2;
    let mut rx = Receiver::new(pb);
    assert!(matches!(rx.try_next_frame(), Err(Error::Transport(()))));
    // The read after the failed one goes on where the frame was left.
    let frame = rx.try_next_frame().unwrap().unwrap();
    assert_eq!(frame.channels(), &src);
    assert_eq!(rx.stats(), only_frames(1));
    assert!(rx.events().is_empty());
}

#[test]
fn a_failed_wait_keeps_the_partial_frame() {
    let src = ramp();
    let packets = frame_packets(&src);
    let mut pb = Playback::new(&packets);
    pb.fail_at = 8;
    let mut rx = Receiver::new(pb);
    assert!(matches!(rx.next_frame(), Err(Error::Transport(()))));
    assert_eq!(rx.next_frame().unwrap().channels(), &src);
    assert_eq!(rx.stats(), only_frames(1));
}

/// Counters that have counted `frames` frames and nothing else.
fn only_frames(frames: u32) -> RxStats {
    let mut stats = RxStats::default();
    stats.frames = frames;
    stats
}

#[test]
fn whole_frames_are_counted_and_leave_no_event() {
    let src = ramp();
    let packets = frame_packets(&src);
    let mut script = [[0u8; PACKET_LEN]; 18];
    script[..9].copy_from_slice(&packets);
    script[9..].copy_from_slice(&packets);
    let mut rx = Receiver::new(Playback::new(&script));
    assert_eq!(rx.next_frame().unwrap().channels(), &src);
    assert_eq!(rx.stats(), only_frames(1));
    assert_eq!(rx.next_frame().unwrap().channels(), &src);
    assert_eq!(rx.stats(), only_frames(2));
    assert!(rx.events().is_empty());
}

#[test]
fn the_trailer_stays_out_after_a_short_packet() {
    // A continuation cut to 9 channel bytes leaves 54 slots free; the trailer of the
    // last packet must not move into them.
    let packets = frame_packets(&[7; CHANNELS]);
    let mut pb = Playback::new(&packets);
    pb.short_at = Some((3, 10));
    let mut rx = Receiver::new(pb);
    let frame = rx.next_frame().unwrap();
    let mut expected = [0u8; CHANNELS];
    expected[..458].fill(7);
    assert_eq!(frame.channels(), &expected);
    assert_eq!(rx.stats().short_packets, 1);
}

#[test]
fn last_packets_with_the_same_channels_lead_to_the_same_frame() {
    let mut first = [0x11u8; PACKET_LEN];
    first[0] = TAG_FIRST;
    let mut last = [0x22u8; PACKET_LEN];
    last[0] = TAG_LAST;
    let mut expected = [0u8; CHANNELS];
    expected[..63].fill(0x11);
    expected[63..71].fill(0x22);
    for n in [9, 10, 13, 63, 64] {
        let mut other = last;
        other[9..].fill(0xEE);
        for packet in [&last, &other] {
            let mut rx = Reassembler::new();
            assert!(matches!(rx.accept(&first, PACKET_LEN), Progress::Pending));
            match rx.accept(packet, n) {
                Progress::Frame(universe) => assert_eq!(universe.channels(), &expected),
                _ => panic!("the last tag completes the frame"),
            }
        }
    }
    // Fewer bytes than the last packet has channels are all taken.
    let mut rx = Reassembler::new();
    assert!(matches!(rx.accept(&first, PACKET_LEN), Progress::Pending));
    match rx.accept(&last, 4) {
        Progress::Frame(universe) => {
            expected[66..71].fill(0);
            assert_eq!(universe.channels(), &expected);
        }
        _ => panic!("the last tag completes the frame"),
    }
}

#[test]
fn counters_only_count_up() {
    let packets = frame_packets(&ramp());
    let mut alien = packets[1];
    alien[0] = 0x7E;
    // An orphan, an abandoned frame, a frame, its re-sent tail, and alien tags.
    let script = [
        packets[4], packets[0], packets[1], packets[0], alien, packets[1], packets[2], packets[3],
        packets[4], packets[5], packets[6], packets[7], packets[8], packets[8], alien, packets[2],
    ];
    let mut rx = Reassembler::new();
    let list = |s: RxStats| {
        [
            s.frames,
            s.timeouts,
            s.resyncs,
            s.orphans,
            s.stale_last,
            s.unknown_tags,
            s.short_packets,
            s.events_dropped,
        ]
    };
    let mut before = list(rx.stats());
    for _ in 0..4 {
        for packet in &script {
            // Behind every packet an idle read, and behind an alien one a short read.
            let short = if packet[0] == 0x7E { 12 } else { 0 };
            for n in [PACKET_LEN, 0, short] {
                let _ = rx.accept(packet, n);
                let after = list(rx.stats());
                assert!(before.iter().zip(after.iter()).all(|(b, a)| b <= a));
                before = after;
            }
        }
    }
    assert!(before.iter().all(|&count| count > 0));
}

#[test]
fn receive_commands_select_mode_and_filter_in_order() {
    let mut rx = Receiver::new(Playback::new(&[]));
    rx.start().unwrap();
    rx.start_filtered(0xCC).unwrap();
    rx.stop().unwrap();
    let pb = rx.release();
    assert_eq!(
        pb.commands,
        vec![
            (0x02, vec![0x01, 0x02]),
            (0x02, vec![0x01, 0x02]),
            (0x02, vec![0x04, 0xCC]),
            (0x02, vec![0x01, 0x00]),
        ]
    );
    assert_eq!(filter_command(0x17), [0x04, 0x17]);
}
