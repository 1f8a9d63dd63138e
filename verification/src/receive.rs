//! DMX-512 receive: read frames the widget captures off the XLR.
//!
//! The widget is a full transceiver. Receive is gated behind a mode command
//! rather than being the default, so it goes unnoticed until asked for: put the
//! device into [`Mode::Receive`], and it validates each incoming frame's start
//! code, buffers the 512 channels, and streams completed frames back on a
//! separate bulk IN endpoint ([`RECEIVE_ENDPOINT`]).
//!
//! Transmit and receive are mutually exclusive on a single widget, as one mode
//! register drives the RS-485 direction, so this is modelled as a distinct
//! [`Receiver`] rather than another method on [`Widget`](crate::device::Widget).
//! The two are the symmetric ends of the same mode register.
//!
//! [`Reassembler`] is the part that turns packets into frames; [`Receiver`] feeds
//! it from a transport.

use vstd::prelude::*;

use crate::device;
use crate::device::Mode;
use crate::dmx::{Universe, CHANNELS, DEFAULT_OUT_ENDPOINT};
use crate::error::Error;
use crate::transport;
use crate::transport::{Request, Transfer, Transport};

verus! {

/// Bulk IN endpoint that streams received DMX frames. Distinct from the `0x82`
/// command/status channel; active only in [`Mode::Receive`].
pub const RECEIVE_ENDPOINT: u8 = 0x84;

/// Command endpoint that carries the mode and start-code-filter commands: the
/// single live OUT endpoint, shared with the DMX chunk stream.
pub const COMMAND_ENDPOINT: u8 = DEFAULT_OUT_ENDPOINT;

/// Vendor opcode that sets the start-code filter (byte 1 is the start code).
pub const START_CODE_FILTER: u8 = 0x04;

/// Tag on the first packet of a frame: begin a fresh 512-channel buffer.
pub const TAG_FIRST: u8 = 0x40;

/// Tag on a continuation packet: append more channel bytes.
pub const TAG_CONT: u8 = 0x41;

/// Tag on the last packet of a frame: append the final channels, and release.
pub const TAG_LAST: u8 = 0x42;

/// The 64-byte receive packet: a tag byte followed by up to 63 channel bytes
/// (the last packet also carries a 4-byte trailer past the channel data).
pub const PACKET_LEN: usize = 64;

/// Channel bytes that the last packet of a frame carries, ahead of its trailer: what
/// eight packets of 63 leave of the 512.
pub const LAST_CHANNELS: usize = 8;

/// How many leading bytes an [`RxEvent`] keeps.
pub const HEAD_LEN: usize = 8;

/// Capacity of the [`Receiver::events`] ring: plenty between two polls of a
/// caller that drains it per frame, tiny enough to live on a small stack.
pub const EVENT_CAP: usize = 16;

/// Counters from the receive reassembly, for diagnosing a lossy return path.
/// Monotonic since construction (or the last [`Receiver::reset_stats`]), wrapping
/// at the top of their range.
#[derive(Debug, Clone, Copy, PartialEq, Eq, Structural)]
#[non_exhaustive]
pub struct RxStats {
    /// Frames successfully reassembled and returned by [`Receiver::next_frame`].
    pub frames: u32,
    /// Idle `bulk_in` reads (`Ok(0)` timeouts) absorbed while waiting for a frame.
    pub timeouts: u32,
    /// Abandoned partial frames: a fresh `0x40` arrived mid-frame, discarding what
    /// was gathered. Nonzero means packets are being lost part-way through a frame.
    pub resyncs: u32,
    /// Continuation/last packets seen before any `0x40`: a lost frame start.
    pub orphans: u32,
    /// Re-armed final packets: a `0x42` byte-identical to the one that closed
    /// the previous frame (trailer and all). The device occasionally arms its
    /// last IN packet a second time; no data is lost, as the frame it tails was
    /// already delivered intact, but the rate is a useful glitch signal.
    pub stale_last: u32,
    /// Packets whose tag byte matched none of `0x40`/`0x41`/`0x42`.
    pub unknown_tags: u32,
    /// Packets shorter than the 64 bytes the firmware always arms. Any short
    /// read is an anomaly worth seeing, wherever it truncated.
    pub short_packets: u32,
    /// Events that could not be recorded because the event ring was full
    /// (see [`Receiver::events`]).
    pub events_dropped: u32,
}

/// Counters that have counted nothing yet.
pub open spec fn no_stats() -> RxStats {
    RxStats {
        frames: 0,
        timeouts: 0,
        resyncs: 0,
        orphans: 0,
        stale_last: 0,
        unknown_tags: 0,
        short_packets: 0,
        events_dropped: 0,
    }
}

impl Default for RxStats {
    fn default() -> (stats: Self)
        ensures
            stats == no_stats(),
    {
        RxStats {
            frames: 0,
            timeouts: 0,
            resyncs: 0,
            orphans: 0,
            stale_last: 0,
            unknown_tags: 0,
            short_packets: 0,
            events_dropped: 0,
        }
    }
}

/// What a recorded receive-path anomaly was. See [`RxEvent`].
#[derive(Debug, Clone, Copy, PartialEq, Eq, Structural)]
pub enum RxEventKind {
    /// A continuation/last packet with no frame in progress: the frame start
    /// was lost. The payload head identifies which frame it belonged to.
    Orphan,
    /// The device re-armed and re-sent the previous frame's final packet,
    /// byte for byte (see [`RxStats::stale_last`]). Benign.
    StaleLast,
    /// A fresh first tag arrived mid-frame; the partial was abandoned. `got`
    /// says how far the dead frame progressed, that is where the stream died;
    /// `head` holds the *abandoned* frame's first bytes, so its identity (e.g. an
    /// in-band sequence number) is recoverable.
    Resync,
    /// A packet with an unrecognised tag byte.
    UnknownTag,
    /// A packet shorter than the 64 bytes the firmware always arms.
    ShortPacket,
}

/// One recorded receive-path anomaly, with enough context for post-hoc
/// diagnosis without any storage the caller didn't ask for.
#[derive(Debug, Clone, Copy)]
pub struct RxEvent {
    /// What happened.
    pub kind: RxEventKind,
    /// The packet's tag byte (byte 0 as received).
    pub tag: u8,
    /// The packet's length as received from the transport.
    pub len: u8,
    /// Reassembly progress (channel bytes gathered) when the event hit.
    pub got: u16,
    /// The first payload bytes (after the tag), zero-padded. For an orphaned
    /// `0x42` these are the frame's final channels, matchable against what
    /// was sent to identify the frame the orphan belonged to.
    pub head: [u8; HEAD_LEN],
}

/// An [`RxEvent`] as a mathematical value.
pub struct RxEventView {
    pub kind: RxEventKind,
    pub tag: u8,
    pub len: u8,
    pub got: u16,
    pub head: Seq<u8>,
}

impl View for RxEvent {
    type V = RxEventView;

    open spec fn view(&self) -> RxEventView {
        RxEventView {
            kind: self.kind,
            tag: self.tag,
            len: self.len,
            got: self.got,
            head: self.head@,
        }
    }
}

/// A counter after one more count; it wraps at the top of its range.
pub open spec fn bump(count: u32) -> u32 {
    if count == u32::MAX {
        0
    } else {
        (count + 1) as u32
    }
}

/// The first `n` of `bytes`, with zeros in the place of those that are missing.
pub open spec fn padded(bytes: Seq<u8>, n: nat) -> Seq<u8> {
    Seq::new(
        n,
        |i: int|
            if i < bytes.len() {
                bytes[i]
            } else {
                0u8
            },
    )
}

/// The channel bytes in a packet of which `n` bytes arrived. What follows the last
/// channels of a frame, its trailer above all, is not channel data.
pub open spec fn channel_bytes(packet: Seq<u8>, n: int) -> Seq<u8> {
    if packet[0] == TAG_LAST && n > 1 + LAST_CHANNELS {
        packet.subrange(1, 1 + LAST_CHANNELS)
    } else {
        packet.subrange(1, n)
    }
}

/// The state of the reassembly.
pub struct RxState {
    /// The counters.
    pub stats: RxStats,
    /// The channel bytes gathered for the frame in progress, if there is one.
    pub frame: Option<Seq<u8>>,
    /// The last packet that closed a frame by its tag, if there was one.
    pub last_final: Option<Seq<u8>>,
    /// The recorded anomalies, oldest first.
    pub events: Seq<RxEventView>,
}

/// What a read from the receive endpoint leads to.
pub enum Step {
    /// Nothing was queued.
    Idle,
    /// The packet was dealt with; the frame is not complete yet.
    Pending,
    /// The packet completed this frame.
    Frame(Seq<u8>),
}

impl RxState {
    /// A frame in progress is not full, and the event ring is within its capacity.
    pub open spec fn wf(self) -> bool {
        &&& self.frame matches Some(bytes) ==> bytes.len() < CHANNELS
        &&& self.last_final matches Some(packet) ==> packet.len() == PACKET_LEN
        &&& self.events.len() <= EVENT_CAP
    }

    /// The state of a reassembly that has seen nothing yet.
    pub open spec fn initial() -> RxState {
        RxState { stats: no_stats(), frame: None, last_final: None, events: Seq::empty() }
    }

    /// How many channel bytes are gathered.
    pub open spec fn got(self) -> int {
        match self.frame {
            Some(bytes) => bytes.len() as int,
            None => 0,
        }
    }

    /// The state with other counters.
    pub open spec fn with_stats(self, stats: RxStats) -> RxState {
        RxState { stats, ..self }
    }

    /// Record an anomaly, or count it as dropped when the ring is full.
    pub open spec fn record(self, kind: RxEventKind, tag: u8, len: int, head: Seq<u8>) -> RxState {
        if self.events.len() < EVENT_CAP {
            RxState {
                events: self.events.push(
                    RxEventView {
                        kind,
                        tag,
                        len: len as u8,
                        got: self.got() as u16,
                        head: padded(head, HEAD_LEN as nat),
                    },
                ),
                ..self
            }
        } else {
            self.with_stats(
                RxStats { events_dropped: bump(self.stats.events_dropped), ..self.stats },
            )
        }
    }

    /// Count and record a packet that is not of full length.
    pub open spec fn notice_length(self, packet: Seq<u8>, n: int) -> RxState {
        if n == PACKET_LEN {
            self
        } else {
            self.with_stats(
                RxStats { short_packets: bump(self.stats.short_packets), ..self.stats },
            ).record(RxEventKind::ShortPacket, packet[0], n, packet.subrange(1, n))
        }
    }

    /// Begin a fresh frame. If there was one in progress, with channel bytes gathered,
    /// it is abandoned: count and record that.
    pub open spec fn open_frame(self, packet: Seq<u8>, n: int) -> RxState {
        let noted = if self.got() > 0 {
            self.with_stats(RxStats { resyncs: bump(self.stats.resyncs), ..self.stats }).record(
                RxEventKind::Resync,
                packet[0],
                n,
                self.frame->Some_0,
            )
        } else {
            self
        };
        RxState { frame: Some(Seq::empty()), ..noted }
    }

    /// Add the packet's channel bytes, as far as they fit, to the frame in progress.
    /// The frame is complete with the last tag, or once it is full.
    pub open spec fn gather(self, packet: Seq<u8>, n: int) -> (RxState, Step) {
        let all = self.frame->Some_0 + channel_bytes(packet, n);
        let bytes = if all.len() < CHANNELS {
            all
        } else {
            all.take(CHANNELS as int)
        };
        let last = packet[0] == TAG_LAST;
        if last || bytes.len() == CHANNELS {
            (
                RxState {
                    stats: RxStats { frames: bump(self.stats.frames), ..self.stats },
                    frame: None,
                    last_final: if last {
                        Some(packet)
                    } else {
                        self.last_final
                    },
                    ..self
                },
                Step::Frame(padded(bytes, CHANNELS as nat)),
            )
        } else {
            (RxState { frame: Some(bytes), ..self }, Step::Pending)
        }
    }

    /// What a read of `n` bytes into `packet` leads to.
    pub open spec fn accept(self, packet: Seq<u8>, n: int) -> (RxState, Step) {
        let tag = packet[0];
        let head = packet.subrange(1, n);
        let seen = self.notice_length(packet, n);
        if n == 0 {
            (
                self.with_stats(RxStats { timeouts: bump(self.stats.timeouts), ..self.stats }),
                Step::Idle,
            )
        } else if tag == TAG_FIRST {
            seen.open_frame(packet, n).gather(packet, n)
        } else if (tag == TAG_CONT || tag == TAG_LAST) && self.frame is Some {
            seen.gather(packet, n)
        } else if tag == TAG_LAST && self.last_final == Some(packet) {
            (
                seen.with_stats(
                    RxStats { stale_last: bump(seen.stats.stale_last), ..seen.stats },
                ).record(RxEventKind::StaleLast, tag, n, head),
                Step::Pending,
            )
        } else if tag == TAG_CONT || tag == TAG_LAST {
            (
                seen.with_stats(RxStats { orphans: bump(seen.stats.orphans), ..seen.stats }).record(
                    RxEventKind::Orphan,
                    tag,
                    n,
                    head,
                ),
                Step::Pending,
            )
        } else {
            (
                seen.with_stats(
                    RxStats { unknown_tags: bump(seen.stats.unknown_tags), ..seen.stats },
                ).record(RxEventKind::UnknownTag, tag, n, head),
                Step::Pending,
            )
        }
    }
}

/// What [`Reassembler::accept`] made of a read.
pub enum Progress {
    /// Nothing was queued.
    Idle,
    /// The packet was dealt with; the frame is not complete yet.
    Pending,
    /// The packet completed this frame.
    Frame(Universe),
}

impl View for Progress {
    type V = Step;

    open spec fn view(&self) -> Step {
        match self {
            Progress::Idle => Step::Idle,
            Progress::Pending => Step::Pending,
            Progress::Frame(universe) => Step::Frame(universe@),
        }
    }
}

/// Turns the packets of the receive endpoint into frames.
///
/// Reassembly keys off the tags, not a packet count: a fresh `0x40` starts a new
/// frame (so a short or malformed frame resynchronises on the next one rather than
/// desynchronising the stream), and continuation/last packets before the first
/// `0x40` are ignored. The 4-byte trailer on the last packet is frame metadata, not
/// channel data, and is discarded.
pub struct Reassembler {
    stats: RxStats,
    partial: Universe,
    got: usize,
    started: bool,
    // The final (0x42) packet that closed the last completed frame, for
    // recognizing the device's occasional byte-identical re-send of it.
    last_final: [u8; PACKET_LEN],
    have_final: bool,
    // Anomaly ring: fixed storage, drained by the caller (see `events`).
    events: [RxEvent; EVENT_CAP],
    event_len: usize,
}

impl Reassembler {
    /// Nothing is gathered unless a frame is in progress, which is not full, and
    /// slots that are not gathered yet are zero.
    pub closed spec fn wf(&self) -> bool {
        &&& self.got < CHANNELS
        &&& self.got > 0 ==> self.started
        &&& forall|i: int| self.got <= i < CHANNELS ==> #[trigger] self.partial@[i] == 0
        &&& self.event_len <= EVENT_CAP
    }

    /// The state of the reassembly.
    pub closed spec fn state(&self) -> RxState {
        RxState {
            stats: self.stats,
            frame: if self.started {
                Some(self.partial@.take(self.got as int))
            } else {
                None
            },
            last_final: if self.have_final {
                Some(self.last_final@)
            } else {
                None
            },
            events: Seq::new(self.event_len as nat, |i: int| self.events@[i]@),
        }
    }

    /// The state of a well-formed reassembler is well-formed.
    pub proof fn lemma_state_wf(&self)
        requires
            self.wf(),
        ensures
            self.state().wf(),
    {
        self.partial.law_slot_count();
    }

    /// A reassembler that has seen nothing yet.
    pub fn new() -> (reassembler: Self)
        ensures
            reassembler.wf(),
            reassembler.state() == RxState::initial(),
    {
        let blank = RxEvent {
            kind: RxEventKind::UnknownTag,
            tag: 0,
            len: 0,
            got: 0,
            head: [0u8; HEAD_LEN],
        };
        let reassembler = Reassembler {
            stats: RxStats::default(),
            partial: Universe::new(),
            got: 0,
            started: false,
            last_final: [0u8; PACKET_LEN],
            have_final: false,
            events: [blank; EVENT_CAP],
            event_len: 0,
        };
        assert(reassembler.state().events =~= Seq::<RxEventView>::empty());
        reassembler
    }

    /// The anomalies recorded since the last [`clear_events`](Self::clear_events),
    /// in arrival order.
    pub fn events(&self) -> (events: &[RxEvent])
        requires
            self.wf(),
        ensures
            events@.len() == self.state().events.len(),
            forall|i: int|
                0 <= i < events@.len() ==> (#[trigger] events@[i])@ == self.state().events[i],
    {
        &self.events[0..self.event_len]
    }

    /// Forget the recorded events, freeing the ring.
    pub fn clear_events(&mut self)
        requires
            old(self).wf(),
        ensures
            final(self).wf(),
            final(self).state() == (RxState { events: Seq::empty(), ..old(self).state() }),
    {
        self.event_len = 0;
        assert(self.state().events =~= Seq::<RxEventView>::empty());
    }

    /// Record an anomaly. `head_src` is whatever identifies the event best: usually
    /// the packet's payload, but for a resync the *abandoned* frame's first bytes
    /// (where an in-band identity lives).
    fn push_event(&mut self, kind: RxEventKind, tag: u8, len: usize, head_src: &[u8])
        requires
            old(self).wf(),
            len <= PACKET_LEN,
        ensures
            final(self).wf(),
            final(self).state() == old(self).state().record(kind, tag, len as int, head_src@),
            final(self).partial == old(self).partial,
            final(self).got == old(self).got,
            final(self).started == old(self).started,
    {
        if self.event_len == EVENT_CAP {
            self.stats.events_dropped = self.stats.events_dropped.wrapping_add(1);
            return;
        }
        let mut head = [0u8; HEAD_LEN];
        let take: usize = if head_src.len() < HEAD_LEN {
            head_src.len()
        } else {
            HEAD_LEN
        };
        let mut i: usize = 0;
        while i < take
            invariant
                i <= take <= HEAD_LEN,
                take <= head_src@.len(),
                head@.len() == HEAD_LEN,
                forall|j: int| 0 <= j < i ==> head@[j] == head_src@[j],
                forall|j: int| i <= j < HEAD_LEN ==> head@[j] == 0,
            decreases take - i,
        {
            head[i] = head_src[i];
            i += 1;
        }
        assert(head@ =~= padded(head_src@, HEAD_LEN as nat));
        proof {
            self.partial.law_slot_count();
        }
        self.events[self.event_len] = RxEvent {
            kind,
            tag,
            len: len as u8,
            got: self.got as u16,
            head,
        };
        self.event_len += 1;
        assert(self.state().events =~= old(self).state().record(
            kind,
            tag,
            len as int,
            head_src@,
        ).events);
    }

    /// The receive-path counters accumulated so far. See [`RxStats`].
    pub fn stats(&self) -> (stats: RxStats)
        ensures
            stats == self.state().stats,
    {
        self.stats
    }

    /// Reset the [`stats`](Self::stats) counters to zero (e.g. at a phase boundary).
    pub fn reset_stats(&mut self)
        requires
            old(self).wf(),
        ensures
            final(self).wf(),
            final(self).state() == old(self).state().with_stats(no_stats()),
    {
        self.stats = RxStats::default();
    }

    /// Deal with a read of `n` bytes into `packet`.
    ///
    /// An idle read is counted and changes nothing else, so a partially gathered
    /// frame is kept across it.
    pub fn accept(&mut self, packet: &[u8; PACKET_LEN], n: usize) -> (progress: Progress)
        requires
            old(self).wf(),
            n <= PACKET_LEN,
        ensures
            final(self).wf(),
            (final(self).state(), progress@) == old(self).state().accept(packet@, n as int),
    {
        if n == 0 {
            self.stats.timeouts = self.stats.timeouts.wrapping_add(1);
            return Progress::Idle;
        }
        if n != PACKET_LEN {
            // The firmware always arms full 64-byte packets, so any short read is an
            // anomaly (host stack or controller), even though the bytes that did
            // arrive are still processed below.
            self.stats.short_packets = self.stats.short_packets.wrapping_add(1);
            self.push_event(RxEventKind::ShortPacket, packet[0], n, &packet[1..n]);
        }
        let ghost seen = self.state();
        assert(seen == old(self).state().notice_length(packet@, n as int));
        let tag: u8 = packet[0];
        if tag == TAG_FIRST {
            self.open_frame(packet, n);
            return self.gather(packet, n);
        }
        if (tag == TAG_CONT || tag == TAG_LAST) && self.started {
            return self.gather(packet, n);
        }
        if tag == TAG_LAST && self.have_final && same_packet(packet, &self.last_final) {
            // The device re-armed the final packet of the frame it just delivered
            // (byte-identical, trailer and all). An extra tail of a frame already
            // received intact: benign, but counted, as its rate tracks the device's
            // arm-glitch behaviour.
            self.stats.stale_last = self.stats.stale_last.wrapping_add(1);
            self.push_event(RxEventKind::StaleLast, tag, n, &packet[1..n]);
        } else if tag == TAG_CONT || tag == TAG_LAST {
            // A continuation/last before any first tag: the frame start was lost. Wait
            // for the next 0x40 rather than mis-assemble. The payload head is kept: for
            // a 0x42 it is the frame's tail channels, which identify the frame this
            // orphan belonged to.
            self.stats.orphans = self.stats.orphans.wrapping_add(1);
            self.push_event(RxEventKind::Orphan, tag, n, &packet[1..n]);
        } else {
            self.stats.unknown_tags = self.stats.unknown_tags.wrapping_add(1);
            self.push_event(RxEventKind::UnknownTag, tag, n, &packet[1..n]);
        }
        Progress::Pending
    }

    /// Begin a fresh frame. One that is still in progress lost its tail mid-stream
    /// (the device stopped arming its IN packets part-way); how far it got and its
    /// first bytes (identity) are recorded before it is discarded.
    fn open_frame(&mut self, packet: &[u8; PACKET_LEN], n: usize)
        requires
            old(self).wf(),
            n <= PACKET_LEN,
        ensures
            final(self).wf(),
            final(self).state() == old(self).state().open_frame(packet@, n as int),
            final(self).started,
    {
        proof {
            self.partial.law_slot_count();
        }
        if self.got > 0 {
            let ghost gathered = self.partial@.take(self.got as int);
            self.stats.resyncs = self.stats.resyncs.wrapping_add(1);
            let slots = self.partial.channels();
            let head = [
                slots[0],
                slots[1],
                slots[2],
                slots[3],
                slots[4],
                slots[5],
                slots[6],
                slots[7],
            ];
            assert(padded(head@, HEAD_LEN as nat) =~= padded(gathered, HEAD_LEN as nat));
            self.push_event(RxEventKind::Resync, packet[0], n, &head);
        }
        self.partial = Universe::new();
        self.got = 0;
        self.started = true;
        assert(self.partial@.take(0) =~= Seq::<u8>::empty());
    }

    /// Add the packet's channel bytes to the frame in progress.
    fn gather(&mut self, packet: &[u8; PACKET_LEN], n: usize) -> (progress: Progress)
        requires
            old(self).wf(),
            old(self).started,
            1 <= n <= PACKET_LEN,
        ensures
            final(self).wf(),
            (final(self).state(), progress@) == old(self).state().gather(packet@, n as int),
    {
        let ghost before = self.partial@;
        let ghost held = self.partial@.take(self.got as int);
        let ghost data = channel_bytes(packet@, n as int);
        proof {
            self.partial.law_slot_count();
        }
        let last: bool = packet[0] == TAG_LAST;
        // What stands behind the last channels is the trailer, or padding.
        let carried: usize = if last && n - 1 > LAST_CHANNELS {
            LAST_CHANNELS
        } else {
            n - 1
        };
        let take: usize = if carried < CHANNELS - self.got {
            carried
        } else {
            CHANNELS - self.got
        };
        let start: usize = self.got;
        let slots = self.partial.channels_mut();
        let mut i: usize = 0;
        while i < take
            invariant
                i <= take <= PACKET_LEN - 1,
                start + take <= CHANNELS,
                slots@.len() == CHANNELS,
                before.len() == CHANNELS,
                forall|j: int| 0 <= j < CHANNELS && !(start <= j < start + i) ==> slots@[j] == before[j],
                forall|j: int| start <= j < start + i ==> slots@[j] == packet@[1 + j - start],
            decreases take - i,
        {
            slots[start + i] = packet[1 + i];
            i += 1;
        }
        let ghost filled = slots@;
        self.got = start + take;
        assert(self.partial@ == filled);
        assert forall|j: int| start + take <= j < CHANNELS implies #[trigger] self.partial@[j]
            == 0 by {
            assert(filled[j] == before[j]);
            assert(old(self).partial@[j] == 0);
        }
        let ghost all = held + data;
        let ghost bytes = if all.len() < CHANNELS {
            all
        } else {
            all.take(CHANNELS as int)
        };
        assert(bytes.len() == start + take);
        assert(self.partial@.take(start + take) =~= bytes);
        if last || self.got >= CHANNELS {
            if last {
                // Remember the closing packet: the device sometimes re-arms and
                // re-sends it, which must read as stale, not as an orphan.
                self.last_final = *packet;
                self.have_final = true;
            }
            self.stats.frames = self.stats.frames.wrapping_add(1);
            self.got = 0;
            self.started = false;
            assert(self.partial@ =~= padded(bytes, CHANNELS as nat));
            let mut frame = Universe::new();
            core::mem::swap(&mut frame, &mut self.partial);
            return Progress::Frame(frame);
        }
        Progress::Pending
    }
}

/// Whether two packets are identical, byte for byte.
fn same_packet(a: &[u8; PACKET_LEN], b: &[u8; PACKET_LEN]) -> (same: bool)
    ensures
        same == (a@ == b@),
{
    let mut i: usize = 0;
    while i < PACKET_LEN
        invariant
            i <= PACKET_LEN,
            forall|j: int| 0 <= j < i ==> a@[j] == b@[j],
        decreases PACKET_LEN - i,
    {
        if a[i] != b[i] {
            assert(a@[i as int] != b@[i as int]);
            return false;
        }
        i += 1;
    }
    assert(a@ =~= b@);
    true
}

/// How a poll for a frame ended.
pub enum Ended<E> {
    /// The transport failed.
    Failed(E),
    /// Nothing was queued.
    Idle,
    /// A frame was completed.
    Frame(Seq<u8>),
}

/// A read of the receive endpoint, into a zeroed packet buffer.
pub open spec fn receive_read<E>(transfer: Transfer<E>) -> bool {
    &&& transfer matches Transfer::BulkIn { endpoint, offered, filled, read }
    &&& endpoint == RECEIVE_ENDPOINT
    &&& offered == Seq::new(PACKET_LEN as nat, |i: int| 0u8)
    &&& filled.len() == PACKET_LEN
    &&& read matches Ok(n) ==> n <= PACKET_LEN
}

/// The state after one read during a poll, and how the poll ended if the read ended
/// it.
pub open spec fn poll_read<E>(state: RxState, transfer: Transfer<E>) -> (RxState, Option<Ended<E>>) {
    match transfer {
        Transfer::BulkIn { filled, read: Ok(n), .. } => {
            let (next, step) = state.accept(filled, n as int);
            match step {
                Step::Idle => (next, Some(Ended::Idle)),
                Step::Pending => (next, None),
                Step::Frame(frame) => (next, Some(Ended::Frame(frame))),
            }
        },
        Transfer::BulkIn { read: Err(e), .. } => (state, Some(Ended::Failed(e))),
        _ => (state, None),
    }
}

/// The state after the reads of a poll, and how the poll ended if it did.
pub open spec fn poll_reads<E>(state: RxState, reads: Seq<Transfer<E>>) -> (
    RxState,
    Option<Ended<E>>,
)
    decreases reads.len(),
{
    if reads.len() == 0 {
        (state, None)
    } else {
        let (before, ended) = poll_reads(state, reads.drop_last());
        if ended is Some {
            (before, ended)
        } else {
            poll_read(before, reads.last())
        }
    }
}

/// The state after the reads of a wait for a frame, and how the wait ended if it did.
/// An idle read does not end a wait.
pub open spec fn wait_reads<E>(state: RxState, reads: Seq<Transfer<E>>) -> (
    RxState,
    Option<Ended<E>>,
)
    decreases reads.len(),
{
    if reads.len() == 0 {
        (state, None)
    } else {
        let (before, ended) = wait_reads(state, reads.drop_last());
        if ended is Some {
            (before, ended)
        } else {
            match poll_read(before, reads.last()) {
                (next, Some(Ended::Idle)) => (next, None),
                other => other,
            }
        }
    }
}

/// The result of a poll that ended as `ended` says.
pub open spec fn poll_result<E>(ended: Ended<E>, result: Result<Option<Universe>, Error<E>>) -> bool {
    match ended {
        Ended::Failed(e) => result == Err::<Option<Universe>, Error<E>>(Error::Transport(e)),
        Ended::Idle => result matches Ok(None),
        Ended::Frame(frame) => result matches Ok(Some(universe)) && universe@ == frame,
    }
}

/// The result of a wait that ended as `ended` says. An idle read does not end a wait.
pub open spec fn wait_result<E>(ended: Ended<E>, result: Result<Universe, Error<E>>) -> bool {
    match ended {
        Ended::Failed(e) => result == Err::<Universe, Error<E>>(Error::Transport(e)),
        Ended::Idle => false,
        Ended::Frame(frame) => result matches Ok(universe) && universe@ == frame,
    }
}

/// The requests that enter receive mode with a start-code filter.
pub open spec fn filtered_plan(start_code: u8) -> Seq<Request> {
    device::mode_plan(Mode::Receive).push(
        Request::Bulk { endpoint: COMMAND_ENDPOINT, data: seq![START_CODE_FILTER, start_code] },
    )
}

/// The command that sets the start-code filter.
pub fn filter_command(start_code: u8) -> (command: [u8; 2])
    ensures
        command@ == seq![START_CODE_FILTER, start_code],
{
    let command = [START_CODE_FILTER, start_code];
    assert(command@ =~= seq![START_CODE_FILTER, start_code]);
    command
}

/// A widget in receive mode: reads DMX frames captured off the XLR.
///
/// Construct one over a loaded widget's transport, call [`start`](Self::start)
/// to enter receive mode, and [`next_frame`](Self::next_frame) repeatedly.
/// The mode is **not** restored on drop: call [`stop`](Self::stop) when done to
/// return the device to idle.
pub struct Receiver<T> {
    transport: T,
    // Reassembly state lives on the receiver (not on the stack of a single
    // call) so `try_next_frame` can return "nothing yet" on an idle timeout
    // without abandoning a partially gathered frame.
    reassembler: Reassembler,
}

impl<T> Receiver<T> {
    /// The wrapped transport.
    pub closed spec fn transport(&self) -> T {
        self.transport
    }

    /// The reassembly is well-formed.
    pub closed spec fn wf(&self) -> bool {
        self.reassembler.wf()
    }

    /// The state of the reassembly.
    pub closed spec fn state(&self) -> RxState {
        self.reassembler.state()
    }

    /// The state of a well-formed receiver is well-formed.
    pub proof fn lemma_state_wf(&self)
        requires
            self.wf(),
        ensures
            self.state().wf(),
    {
        self.reassembler.lemma_state_wf();
    }
}

impl<T: Transport> Receiver<T> {
    /// Wrap a loaded widget's transport. Does not touch the device; call
    /// [`start`](Self::start) to enter receive mode.
    pub fn new(transport: T) -> (receiver: Self)
        ensures
            receiver.wf(),
            receiver.transport() == transport,
            receiver.state() == RxState::initial(),
    {
        Receiver { transport, reassembler: Reassembler::new() }
    }

    /// The anomalies recorded since the last [`clear_events`](Self::clear_events),
    /// in arrival order. The ring is small ([`EVENT_CAP`]); drain it after every
    /// frame (or idle poll) or overflow is counted in
    /// [`RxStats::events_dropped`].
    pub fn events(&self) -> (events: &[RxEvent])
        requires
            self.wf(),
        ensures
            events@.len() == self.state().events.len(),
            forall|i: int|
                0 <= i < events@.len() ==> (#[trigger] events@[i])@ == self.state().events[i],
    {
        self.reassembler.events()
    }

    /// Forget the recorded events, freeing the ring.
    pub fn clear_events(&mut self)
        requires
            old(self).wf(),
        ensures
            final(self).wf(),
            final(self).transport() == old(self).transport(),
            final(self).state() == (RxState { events: Seq::empty(), ..old(self).state() }),
    {
        self.reassembler.clear_events();
    }

    /// The receive-path counters accumulated so far. See [`RxStats`].
    pub fn stats(&self) -> (stats: RxStats)
        ensures
            stats == self.state().stats,
    {
        self.reassembler.stats()
    }

    /// Reset the [`stats`](Self::stats) counters to zero (e.g. at a phase boundary).
    pub fn reset_stats(&mut self)
        requires
            old(self).wf(),
        ensures
            final(self).wf(),
            final(self).transport() == old(self).transport(),
            final(self).state() == old(self).state().with_stats(no_stats()),
    {
        self.reassembler.reset_stats();
    }

    /// Enter receive mode with the default start-code filter (`0x00`, standard
    /// dimmer data). Enables the UART receiver and lights the receive LED.
    pub fn start(&mut self) -> (result: Result<(), Error<T::Error>>)
        ensures
            final(self).wf() == old(self).wf(),
            final(self).state() == old(self).state(),
            transport::ran(
                old(self).transport().log(),
                final(self).transport().log(),
                device::mode_plan(Mode::Receive),
                result,
            ),
    {
        device::send_mode(&mut self.transport, Mode::Receive)
    }

    /// Enter receive mode, delivering only frames whose start code matches
    /// `start_code`. The filter is set **after** entering the mode: entering
    /// receive mode resets the filter, so setting it first would not stick.
    pub fn start_filtered(&mut self, start_code: u8) -> (result: Result<(), Error<T::Error>>)
        ensures
            final(self).wf() == old(self).wf(),
            final(self).state() == old(self).state(),
            transport::ran(
                old(self).transport().log(),
                final(self).transport().log(),
                filtered_plan(start_code),
                result,
            ),
    {
        let ghost before = self.transport.log();
        let ghost plan = filtered_plan(start_code);
        assert(plan.take(1) =~= device::mode_plan(Mode::Receive));
        match self.start() {
            Ok(()) => {},
            Err(e) => {
                proof {
                    transport::lemma_performed_prefix(
                        before,
                        self.transport.log(),
                        1,
                        plan,
                        e->Transport_0,
                    );
                }
                return Err(e);
            },
        }
        let ghost middle = self.transport.log();
        let command = filter_command(start_code);
        let outcome = self.transport.bulk_out(COMMAND_ENDPOINT, &command);
        proof {
            transport::lemma_performed_step(before, middle, 1, plan, outcome);
            assert(plan.take(2) =~= plan);
        }
        match outcome {
            Ok(()) => Ok(()),
            Err(e) => Err(Error::Transport(e)),
        }
    }

    /// Return the device to idle ([`Mode::Stop`]), releasing the receiver.
    pub fn stop(&mut self) -> (result: Result<(), Error<T::Error>>)
        ensures
            final(self).wf() == old(self).wf(),
            final(self).state() == old(self).state(),
            transport::ran(
                old(self).transport().log(),
                final(self).transport().log(),
                device::mode_plan(Mode::Stop),
                result,
            ),
    {
        device::send_mode(&mut self.transport, Mode::Stop)
    }

    /// Read one packet off [`RECEIVE_ENDPOINT`] and deal with it.
    fn read_packet(&mut self) -> (progress: Result<Progress, T::Error>)
        requires
            old(self).wf(),
        ensures
            final(self).wf(),
            ({
                let after = final(self).transport().log();
                &&& after.len() == old(self).transport().log().len() + 1
                &&& after.drop_last() == old(self).transport().log()
                &&& receive_read(after.last())
                &&& poll_read(old(self).state(), after.last()) == (
                    final(self).state(),
                    match progress {
                        Ok(Progress::Idle) => Some(Ended::Idle),
                        Ok(Progress::Pending) => None,
                        Ok(Progress::Frame(universe)) => Some(Ended::Frame(universe@)),
                        Err(e) => Some(Ended::Failed(e)),
                    },
                )
            }),
    {
        let mut packet = [0u8; PACKET_LEN];
        assert(packet@ =~= Seq::new(PACKET_LEN as nat, |i: int| 0u8));
        let read = self.transport.bulk_in(RECEIVE_ENDPOINT, &mut packet);
        assert(self.transport.log().drop_last() =~= old(self).transport.log());
        match read {
            Ok(n) => Ok(self.reassembler.accept(&packet, n)),
            Err(e) => Err(e),
        }
    }

    /// Like [`next_frame`](Self::next_frame), but an idle read (`Ok(0)` transport
    /// timeout) returns `Ok(None)` instead of waiting on.
    ///
    /// A partially gathered frame is **kept** across `None` returns, so polling this
    /// in a loop is exactly equivalent to `next_frame`. It exists so a caller can
    /// interleave the wait with its own checks (e.g. a shutdown flag) at the
    /// granularity of the transport's read timeout.
    ///
    /// One call reads at most `u64::MAX` packets; if none of them completes a frame
    /// or finds the endpoint idle, it returns `Ok(None)` too, with the partial frame
    /// kept as ever.
    pub fn try_next_frame(&mut self) -> (result: Result<Option<Universe>, Error<T::Error>>)
        requires
            old(self).wf(),
        ensures
            final(self).wf(),
            ({
                let before = old(self).transport().log();
                let after = final(self).transport().log();
                let reads = after.skip(before.len() as int);
                let (state, ended) = poll_reads(old(self).state(), reads);
                &&& before.len() < after.len()
                &&& after.take(before.len() as int) == before
                &&& forall|i: int| 0 <= i < reads.len() ==> receive_read(#[trigger] reads[i])
                &&& poll_reads(old(self).state(), reads.drop_last()).1 is None
                &&& final(self).state() == state
                &&& match ended {
                    Some(end) => poll_result(end, result),
                    None => reads.len() == u64::MAX && result matches Ok(None),
                }
            }),
    {
        let ghost before = self.transport.log();
        let ghost mut reads = Seq::<Transfer<T::Error>>::empty();
        let mut left: u64 = u64::MAX;
        assert(before.skip(before.len() as int) =~= reads);
        assert(before.take(before.len() as int) =~= before);
        while left > 0
            invariant
                self.wf(),
                before == old(self).transport.log(),
                before.len() <= self.transport.log().len(),
                self.transport.log().take(before.len() as int) == before,
                self.transport.log().skip(before.len() as int) == reads,
                reads.len() + left == u64::MAX,
                reads.len() > 0 ==> poll_reads(old(self).state(), reads.drop_last()).1 is None,
                forall|i: int| 0 <= i < reads.len() ==> receive_read(#[trigger] reads[i]),
                poll_reads(old(self).state(), reads) == (
                    self.reassembler.state(),
                    None::<Ended<T::Error>>,
                ),
            decreases left,
        {
            left -= 1;
            let ghost held = reads;
            let progress = self.read_packet();
            proof {
                let log = self.transport.log();
                reads = held.push(log.last());
                assert(log.skip(before.len() as int) =~= reads);
                assert(log.take(before.len() as int) =~= before);
                assert(reads.drop_last() =~= held);
            }
            match progress {
                Ok(Progress::Idle) => return Ok(None),
                Ok(Progress::Pending) => {},
                Ok(Progress::Frame(universe)) => return Ok(Some(universe)),
                Err(e) => return Err(Error::Transport(e)),
            }
        }
        Ok(None)
    }

    /// Read and reassemble one frame into a [`Universe`].
    ///
    /// Reads packets off [`RECEIVE_ENDPOINT`] until a frame is complete. Idle reads
    /// (no DMX source) time out and return `Ok(0)` from the transport; those are
    /// absorbed here, so this simply blocks until a frame arrives.
    ///
    /// The reads of a wait are counted in 64 bits. Should all of them be used up, more
    /// than a transport makes in its lifetime, the wait ends with [`Error::NoFrame`],
    /// and what is gathered so far is kept.
    pub fn next_frame(&mut self) -> (result: Result<Universe, Error<T::Error>>)
        requires
            old(self).wf(),
        ensures
            final(self).wf(),
            ({
                let before = old(self).transport().log();
                let after = final(self).transport().log();
                let reads = after.skip(before.len() as int);
                let (state, ended) = wait_reads(old(self).state(), reads);
                &&& before.len() < after.len()
                &&& after.take(before.len() as int) == before
                &&& forall|i: int| 0 <= i < reads.len() ==> receive_read(#[trigger] reads[i])
                &&& wait_reads(old(self).state(), reads.drop_last()).1 is None
                &&& final(self).state() == state
                &&& match ended {
                    Some(end) => wait_result(end, result),
                    None => reads.len() == u64::MAX && result matches Err(Error::NoFrame),
                }
            }),
    {
        let ghost before = self.transport.log();
        let ghost mut reads = Seq::<Transfer<T::Error>>::empty();
        let mut left: u64 = u64::MAX;
        assert(before.skip(before.len() as int) =~= reads);
        assert(before.take(before.len() as int) =~= before);
        while left > 0
            invariant
                self.wf(),
                before == old(self).transport.log(),
                before.len() <= self.transport.log().len(),
                self.transport.log().take(before.len() as int) == before,
                self.transport.log().skip(before.len() as int) == reads,
                reads.len() + left == u64::MAX,
                reads.len() > 0 ==> wait_reads(old(self).state(), reads.drop_last()).1 is None,
                forall|i: int| 0 <= i < reads.len() ==> receive_read(#[trigger] reads[i]),
                wait_reads(old(self).state(), reads) == (
                    self.reassembler.state(),
                    None::<Ended<T::Error>>,
                ),
            decreases left,
        {
            left -= 1;
            let ghost held = reads;
            let progress = self.read_packet();
            proof {
                let log = self.transport.log();
                reads = held.push(log.last());
                assert(log.skip(before.len() as int) =~= reads);
                assert(log.take(before.len() as int) =~= before);
                assert(reads.drop_last() =~= held);
            }
            match progress {
                Ok(Progress::Idle) => {},
                Ok(Progress::Pending) => {},
                Ok(Progress::Frame(universe)) => return Ok(universe),
                Err(e) => return Err(Error::Transport(e)),
            }
        }
        Err(Error::NoFrame)
    }

    /// Recover the wrapped transport. Does not change the device mode; call
    /// [`stop`](Self::stop) first if the widget should be left idle.
    pub fn release(self) -> (transport: T)
        ensures
            transport == self.transport(),
    {
        self.transport
    }
}

} // verus!
