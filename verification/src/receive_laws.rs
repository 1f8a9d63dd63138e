//! What holds of the receive path as a whole.

use vstd::prelude::*;

use crate::dmx::{Universe, CHANNELS};
use crate::error::Error;
use crate::receive;
use crate::receive::{
    Ended, Progress, RxEvent, RxEventKind, RxEventView, RxState, RxStats, Step, EVENT_CAP, HEAD_LEN, LAST_CHANNELS, PACKET_LEN,
    TAG_CONT, TAG_FIRST, TAG_LAST,
};
use crate::transport::{Request, Transfer};

verus! {

/// Reassembly keeps its state well-formed, and delivers whole universes only.
pub proof fn law_state_stays_well_formed(state: RxState, packet: Seq<u8>, n: int)
    requires
        state.wf(),
        packet.len() == PACKET_LEN,
        0 <= n <= PACKET_LEN,
    ensures
        state.accept(packet, n).0.wf(),
        state.accept(packet, n).1 matches Step::Frame(frame) ==> frame.len() == CHANNELS,
{
}

/// An idle read is counted, and changes nothing else.
pub proof fn law_idle_read_only_counts(state: RxState, packet: Seq<u8>)
    ensures
        state.accept(packet, 0) == (
            state.with_stats(
                RxStats { timeouts: receive::bump(state.stats.timeouts), ..state.stats },
            ),
            Step::Idle,
        ),
{
}

/// A first tag begins a fresh frame: what is gathered after it is what its packet
/// holds, whatever had been gathered before.
pub proof fn law_first_tag_starts_afresh(state: RxState, packet: Seq<u8>, n: int)
    requires
        packet.len() == PACKET_LEN,
        1 <= n <= PACKET_LEN,
        packet[0] == TAG_FIRST,
    ensures
        state.accept(packet, n).0.frame == Some(packet.subrange(1, n)),
        state.accept(packet, n).1 is Pending,
{
    assert(Seq::<u8>::empty() + packet.subrange(1, n) =~= packet.subrange(1, n));
}

/// Without a first tag nothing begins: a packet that arrives with no frame in
/// progress is never gathered and never completes a frame.
pub proof fn law_nothing_starts_without_a_first_tag(state: RxState, packet: Seq<u8>, n: int)
    requires
        state.frame is None,
        packet.len() == PACKET_LEN,
        packet[0] != TAG_FIRST,
    ensures
        state.accept(packet, n).0.frame is None,
        state.accept(packet, n).0.last_final == state.last_final,
        !(state.accept(packet, n).1 is Frame),
{
}

/// The device's re-send of the packet that closed the previous frame counts as stale
/// and not as an orphan, and leaves the reassembly as it was.
pub proof fn law_resent_final_packet_is_stale(state: RxState, packet: Seq<u8>)
    requires
        state.frame is None,
        packet.len() == PACKET_LEN,
        packet[0] == TAG_LAST,
        state.last_final == Some(packet),
    ensures
        ({
            let (after, step) = state.accept(packet, PACKET_LEN as int);
            &&& step is Pending
            &&& after.stats.stale_last == receive::bump(state.stats.stale_last)
            &&& after.stats.orphans == state.stats.orphans
            &&& after.frame is None
            &&& after.last_final == state.last_final
        }),
{
}

/// A last packet that arrives with no frame in progress, and is not the one that
/// closed the previous frame, is an orphan and not stale.
pub proof fn law_other_final_packet_is_an_orphan(state: RxState, packet: Seq<u8>, n: int)
    requires
        state.frame is None,
        packet.len() == PACKET_LEN,
        1 <= n <= PACKET_LEN,
        packet[0] == TAG_LAST,
        state.last_final != Some(packet),
    ensures
        ({
            let (after, step) = state.accept(packet, n);
            &&& step is Pending
            &&& after.stats.orphans == receive::bump(state.stats.orphans)
            &&& after.stats.stale_last == state.stats.stale_last
        }),
{
}

/// The trailer of a frame is not channel data: two last packets with the same channel
/// bytes lead to the same, whatever they hold behind those and however much of that
/// arrived. When as much of both arrived, the reassembly differs at most in the closing
/// packet that it remembers.
pub proof fn law_trailer_is_discarded(
    state: RxState,
    one: Seq<u8>,
    n: int,
    other: Seq<u8>,
    m: int,
)
    requires
        one.len() == PACKET_LEN,
        other.len() == PACKET_LEN,
        one[0] == TAG_LAST,
        one.take(1 + LAST_CHANNELS) == other.take(1 + LAST_CHANNELS),
        1 <= n <= PACKET_LEN,
        1 <= m <= PACKET_LEN,
        n == m || (n > LAST_CHANNELS && m > LAST_CHANNELS),
    ensures
        state.accept(one, n).1 == state.accept(other, m).1,
        n == m && state.frame is Some ==> state.accept(one, n).0 == (RxState {
            last_final: Some(one),
            ..state.accept(other, n).0
        }),
{
    let front = one.take(1 + LAST_CHANNELS);
    assert forall|i: int| 0 <= i <= LAST_CHANNELS implies #[trigger] one[i] == other[i] by {
        assert(front[i] == one[i]);
        assert(other.take(1 + LAST_CHANNELS)[i] == other[i]);
    }
    assert(receive::channel_bytes(one, n) =~= receive::channel_bytes(other, m));
    if n == m {
        assert(receive::padded(one.subrange(1, n), HEAD_LEN as nat) =~= receive::padded(
            other.subrange(1, n),
            HEAD_LEN as nat,
        ));
    }
}

/// The kinds of anomaly that a read raises, in the order in which they are recorded.
pub open spec fn anomalies(state: RxState, packet: Seq<u8>, n: int) -> Seq<RxEventKind> {
    let tag = packet[0];
    let short = if 0 < n < PACKET_LEN {
        seq![RxEventKind::ShortPacket]
    } else {
        Seq::empty()
    };
    let other = if n == 0 {
        Seq::empty()
    } else if tag == TAG_FIRST {
        if state.got() > 0 {
            seq![RxEventKind::Resync]
        } else {
            Seq::empty()
        }
    } else if tag != TAG_CONT && tag != TAG_LAST {
        seq![RxEventKind::UnknownTag]
    } else if state.frame is Some {
        Seq::empty()
    } else if tag == TAG_LAST && state.last_final == Some(packet) {
        seq![RxEventKind::StaleLast]
    } else {
        seq![RxEventKind::Orphan]
    };
    short + other
}

/// A counter after `times` more counts.
pub open spec fn bumped(count: u32, times: int) -> u32 {
    ((count + times) % 0x1_0000_0000) as u32
}

/// Every anomaly is seen: those that fit the ring are recorded behind the earlier
/// ones, in arrival order, and the others are counted as dropped.
pub proof fn law_anomalies_are_recorded_or_counted(state: RxState, packet: Seq<u8>, n: int)
    requires
        state.wf(),
        packet.len() == PACKET_LEN,
        0 <= n <= PACKET_LEN,
    ensures
        ({
            let raised = anomalies(state, packet, n);
            let after = state.accept(packet, n).0;
            let room = EVENT_CAP - state.events.len();
            let kept = if raised.len() < room {
                raised.len() as int
            } else {
                room
            };
            &&& after.events.len() == state.events.len() + kept
            &&& after.events.take(state.events.len() as int) == state.events
            &&& forall|i: int|
                0 <= i < kept ==> (#[trigger] after.events[state.events.len() + i]).kind
                    == raised[i]
            &&& after.stats.events_dropped == bumped(
                state.stats.events_dropped,
                raised.len() - kept,
            )
        }),
{
    let after = state.accept(packet, n).0;
    assert(after.events.take(state.events.len() as int) =~= state.events);
}

/// The record of an abandoned frame tells how far it had come and what its first bytes
/// were, if there is room for it in the ring.
pub proof fn law_abandoned_frame_stays_identifiable(state: RxState, packet: Seq<u8>)
    requires
        state.wf(),
        state.got() > 0,
        state.events.len() < EVENT_CAP,
        packet.len() == PACKET_LEN,
        packet[0] == TAG_FIRST,
    ensures
        ({
            let after = state.accept(packet, PACKET_LEN as int).0;
            let event = after.events.last();
            &&& after.events.len() == state.events.len() + 1
            &&& event.kind == RxEventKind::Resync
            &&& event.got == state.got()
            &&& event.head == receive::padded(state.frame->Some_0, HEAD_LEN as nat)
        }),
{
}

/// The record of an orphan holds the packet's tag and the first bytes of its payload,
/// if there is room for it in the ring.
pub proof fn law_orphan_stays_identifiable(state: RxState, packet: Seq<u8>)
    requires
        state.wf(),
        state.frame is None,
        state.events.len() < EVENT_CAP,
        packet.len() == PACKET_LEN,
        packet[0] == TAG_CONT || packet[0] == TAG_LAST,
        state.last_final != Some(packet),
    ensures
        ({
            let after = state.accept(packet, PACKET_LEN as int).0;
            let event = after.events.last();
            &&& after.events.len() == state.events.len() + 1
            &&& event.kind == RxEventKind::Orphan
            &&& event.tag == packet[0]
            &&& event.len == PACKET_LEN
            &&& event.head == packet.subrange(1, 1 + HEAD_LEN)
        }),
{
    assert(receive::padded(packet.subrange(1, PACKET_LEN as int), HEAD_LEN as nat)
        =~= packet.subrange(1, 1 + HEAD_LEN));
}

/// Each counter counts what it is named after, and nothing else: complete frames,
/// idle reads, and the anomalies by kind.
pub proof fn law_counters_count_what_they_name(state: RxState, packet: Seq<u8>, n: int)
    requires
        state.wf(),
        packet.len() == PACKET_LEN,
        0 <= n <= PACKET_LEN,
    ensures
        ({
            let raised = anomalies(state, packet, n);
            let (after, step) = state.accept(packet, n);
            &&& after.stats.frames == if step is Frame {
                receive::bump(state.stats.frames)
            } else {
                state.stats.frames
            }
            &&& after.stats.timeouts == if step is Idle {
                receive::bump(state.stats.timeouts)
            } else {
                state.stats.timeouts
            }
            &&& after.stats.resyncs == if raised.contains(RxEventKind::Resync) {
                receive::bump(state.stats.resyncs)
            } else {
                state.stats.resyncs
            }
            &&& after.stats.orphans == if raised.contains(RxEventKind::Orphan) {
                receive::bump(state.stats.orphans)
            } else {
                state.stats.orphans
            }
            &&& after.stats.stale_last == if raised.contains(RxEventKind::StaleLast) {
                receive::bump(state.stats.stale_last)
            } else {
                state.stats.stale_last
            }
            &&& after.stats.unknown_tags == if raised.contains(RxEventKind::UnknownTag) {
                receive::bump(state.stats.unknown_tags)
            } else {
                state.stats.unknown_tags
            }
            &&& after.stats.short_packets == if raised.contains(RxEventKind::ShortPacket) {
                receive::bump(state.stats.short_packets)
            } else {
                state.stats.short_packets
            }
        }),
{
    let raised = anomalies(state, packet, n);
    if raised.len() > 0 {
        assert(raised.contains(raised[0]));
    }
    if raised.len() > 1 {
        assert(raised.contains(raised[1]));
    }
}

/// No counter is full. A single read can drop two events, so their counter has to have
/// room for both.
pub open spec fn none_full(stats: RxStats) -> bool {
    has_room(stats, 1) && stats.events_dropped + 2 <= u32::MAX
}

/// Every counter can count `times` more before it is past the top of its range.
pub open spec fn has_room(stats: RxStats, times: int) -> bool {
    &&& stats.frames + times <= u32::MAX
    &&& stats.timeouts + times <= u32::MAX
    &&& stats.resyncs + times <= u32::MAX
    &&& stats.orphans + times <= u32::MAX
    &&& stats.stale_last + times <= u32::MAX
    &&& stats.unknown_tags + times <= u32::MAX
    &&& stats.short_packets + times <= u32::MAX
    &&& stats.events_dropped + times <= u32::MAX
}

/// No counter is lower in `after` than it is in `before`.
pub open spec fn none_falls(before: RxStats, after: RxStats) -> bool {
    &&& before.frames <= after.frames
    &&& before.timeouts <= after.timeouts
    &&& before.resyncs <= after.resyncs
    &&& before.orphans <= after.orphans
    &&& before.stale_last <= after.stale_last
    &&& before.unknown_tags <= after.unknown_tags
    &&& before.short_packets <= after.short_packets
    &&& before.events_dropped <= after.events_dropped
}

/// The counters are monotonic: over the reads of a poll none of them falls, as long as
/// none is full when a read begins.
pub proof fn law_polls_only_count_up<E>(state: RxState, reads: Seq<Transfer<E>>)
    requires
        forall|k: int|
            0 <= k < reads.len() ==> none_full(
                (#[trigger] receive::poll_reads(state, reads.take(k))).0.stats,
            ),
    ensures
        none_falls(state.stats, receive::poll_reads(state, reads).0.stats),
    decreases reads.len(),
{
    if reads.len() > 0 {
        let rest = reads.drop_last();
        assert(rest =~= reads.take(reads.len() - 1));
        assert forall|k: int| 0 <= k < rest.len() implies none_full(
            (#[trigger] receive::poll_reads(state, rest.take(k))).0.stats,
        ) by {
            assert(rest.take(k) =~= reads.take(k));
        }
        law_polls_only_count_up(state, rest);
        lemma_read_only_counts_up(receive::poll_reads(state, rest).0, reads.last(), 0);
    }
}

/// The counters are monotonic: over the reads of a wait none of them falls, as long as
/// none is full when a read begins.
pub proof fn law_waits_only_count_up<E>(state: RxState, reads: Seq<Transfer<E>>)
    requires
        forall|k: int|
            0 <= k < reads.len() ==> none_full(
                (#[trigger] receive::wait_reads(state, reads.take(k))).0.stats,
            ),
    ensures
        none_falls(state.stats, receive::wait_reads(state, reads).0.stats),
    decreases reads.len(),
{
    if reads.len() > 0 {
        let rest = reads.drop_last();
        assert(rest =~= reads.take(reads.len() - 1));
        assert forall|k: int| 0 <= k < rest.len() implies none_full(
            (#[trigger] receive::wait_reads(state, rest.take(k))).0.stats,
        ) by {
            assert(rest.take(k) =~= reads.take(k));
        }
        law_waits_only_count_up(state, rest);
        lemma_read_only_counts_up(receive::wait_reads(state, rest).0, reads.last(), 0);
    }
}

/// Counters that start with room for two counts a read do not fall, however the reads
/// turn out, and keep what room they do not use.
pub proof fn law_counters_with_room_only_count_up<E>(
    state: RxState,
    reads: Seq<Transfer<E>>,
    spare: int,
)
    requires
        0 <= spare,
        has_room(state.stats, 2 * reads.len() + spare),
    ensures
        none_falls(state.stats, receive::poll_reads(state, reads).0.stats),
        has_room(receive::poll_reads(state, reads).0.stats, spare),
        none_falls(state.stats, receive::wait_reads(state, reads).0.stats),
        has_room(receive::wait_reads(state, reads).0.stats, spare),
    decreases reads.len(),
{
    if reads.len() > 0 {
        let rest = reads.drop_last();
        law_counters_with_room_only_count_up(state, rest, spare + 2);
        lemma_read_only_counts_up(receive::poll_reads(state, rest).0, reads.last(), spare);
        lemma_read_only_counts_up(receive::wait_reads(state, rest).0, reads.last(), spare);
    }
}

/// A read takes no counter down, and none up by more than two.
proof fn lemma_read_only_counts_up<E>(state: RxState, transfer: Transfer<E>, spare: int)
    requires
        0 <= spare,
        none_full(state.stats),
    ensures
        none_falls(state.stats, receive::poll_read(state, transfer).0.stats),
        has_room(state.stats, spare + 2) ==> has_room(
            receive::poll_read(state, transfer).0.stats,
            spare,
        ),
{
}

/// How many anomalies the counters have counted.
pub open spec fn anomaly_count(stats: RxStats) -> int {
    stats.resyncs + stats.orphans + stats.stale_last + stats.unknown_tags + stats.short_packets
}

/// The ring and the counters agree: every anomaly that was counted was either recorded
/// or counted as dropped, and none was dropped while the ring had room.
pub open spec fn accounted(state: RxState) -> bool {
    &&& state.events.len() + state.stats.events_dropped == anomaly_count(state.stats)
    &&& state.events.len() == if anomaly_count(state.stats) < EVENT_CAP {
        anomaly_count(state.stats)
    } else {
        EVENT_CAP as int
    }
}

/// The ring and the counters agree from the start, and a read keeps them so as long as
/// no counter is full.
pub proof fn law_reads_keep_events_accounted(state: RxState, packet: Seq<u8>, n: int)
    requires
        accounted(state),
        none_full(state.stats),
    ensures
        accounted(RxState::initial()),
        accounted(state.accept(packet, n).0),
{
}

/// The ring and the counters agree after the reads of a poll if they did before, as long
/// as no counter is full when a read begins.
pub proof fn law_polls_keep_events_accounted<E>(state: RxState, reads: Seq<Transfer<E>>)
    requires
        accounted(state),
        forall|k: int|
            0 <= k < reads.len() ==> none_full(
                (#[trigger] receive::poll_reads(state, reads.take(k))).0.stats,
            ),
    ensures
        accounted(receive::poll_reads(state, reads).0),
    decreases reads.len(),
{
    if reads.len() > 0 {
        let rest = reads.drop_last();
        assert(rest =~= reads.take(reads.len() - 1));
        assert forall|k: int| 0 <= k < rest.len() implies none_full(
            (#[trigger] receive::poll_reads(state, rest.take(k))).0.stats,
        ) by {
            assert(rest.take(k) =~= reads.take(k));
        }
        law_polls_keep_events_accounted(state, rest);
        lemma_poll_read_keeps_events_accounted(
            receive::poll_reads(state, rest).0,
            reads.last(),
        );
    }
}

/// The ring and the counters agree after the reads of a wait if they did before, as long
/// as no counter is full when a read begins.
pub proof fn law_waits_keep_events_accounted<E>(state: RxState, reads: Seq<Transfer<E>>)
    requires
        accounted(state),
        forall|k: int|
            0 <= k < reads.len() ==> none_full(
                (#[trigger] receive::wait_reads(state, reads.take(k))).0.stats,
            ),
    ensures
        accounted(receive::wait_reads(state, reads).0),
    decreases reads.len(),
{
    if reads.len() > 0 {
        let rest = reads.drop_last();
        assert(rest =~= reads.take(reads.len() - 1));
        assert forall|k: int| 0 <= k < rest.len() implies none_full(
            (#[trigger] receive::wait_reads(state, rest.take(k))).0.stats,
        ) by {
            assert(rest.take(k) =~= reads.take(k));
        }
        law_waits_keep_events_accounted(state, rest);
        lemma_poll_read_keeps_events_accounted(
            receive::wait_reads(state, rest).0,
            reads.last(),
        );
    }
}

proof fn lemma_poll_read_keeps_events_accounted<E>(state: RxState, transfer: Transfer<E>)
    requires
        accounted(state),
        none_full(state.stats),
    ensures
        accounted(receive::poll_read(state, transfer).0),
{
    if let Transfer::BulkIn { filled, read: Ok(n), .. } = transfer {
        law_reads_keep_events_accounted(state, filled, n as int);
    }
}

/// What a sequence of reads leads to: the state after them, and the frames that were
/// completed, in order. Each read is a packet buffer and the number of bytes that
/// arrived in it.
pub open spec fn feed(state: RxState, reads: Seq<(Seq<u8>, int)>) -> (RxState, Seq<Seq<u8>>)
    decreases reads.len(),
{
    if reads.len() == 0 {
        (state, Seq::empty())
    } else {
        let (before, frames) = feed(state, reads.drop_last());
        let (after, step) = before.accept(reads.last().0, reads.last().1);
        match step {
            Step::Frame(frame) => (after, frames.push(frame)),
            _ => (after, frames),
        }
    }
}

/// The packet with which the device sends channels of a frame: the tag, and the bytes
/// behind it.
pub open spec fn tagged(tag: u8, bytes: Seq<u8>) -> Seq<u8> {
    seq![tag] + bytes
}

/// The nine full packets with which the device sends a frame: 63 channels each with the
/// first tag and seven continuation tags, and the remaining eight with the last tag.
/// Behind those, the last packet is filled up with `trailer`.
pub open spec fn device_packets(frame: Seq<u8>, trailer: Seq<u8>) -> Seq<(Seq<u8>, int)> {
    Seq::new(
        9,
        |i: int|
            (
                if i == 0 {
                    tagged(TAG_FIRST, frame.subrange(0, 63))
                } else if i < 8 {
                    tagged(TAG_CONT, frame.subrange(63 * i, 63 * i + 63))
                } else {
                    tagged(TAG_LAST, frame.subrange(504, 512) + trailer)
                },
                PACKET_LEN as int,
            ),
    )
}

/// Every frame that the device sends is received as it was sent, channel for channel
/// and without the trailer, whatever state the reassembly was in: it is completed by
/// its last packet, no sooner, and nothing else is delivered on the way. The closing
/// packet is remembered. Beside the frame itself, only the abandoning of an earlier one
/// is counted and recorded; with nothing gathered before there is none.
pub proof fn law_frames_round_trip(state: RxState, frame: Seq<u8>, trailer: Seq<u8>)
    requires
        state.wf(),
        frame.len() == CHANNELS,
        trailer.len() == 55,
    ensures
        ({
            let reads = device_packets(frame, trailer);
            let (after, frames) = feed(state, reads);
            let opened = state.open_frame(reads[0].0, PACKET_LEN as int);
            &&& frames == seq![frame]
            &&& feed(state, reads.drop_last()).1.len() == 0
            &&& after == (RxState {
                stats: RxStats { frames: receive::bump(opened.stats.frames), ..opened.stats },
                frame: None,
                last_final: Some(reads.last().0),
                events: opened.events,
            })
            &&& state.got() == 0 ==> opened.stats == state.stats && opened.events == state.events
        }),
{
    let reads = device_packets(frame, trailer);
    lemma_partial_frame(state, frame, trailer, 8);
    assert(reads.drop_last() =~= reads.take(8));
    let before = feed(state, reads.drop_last()).0;
    let packet = reads.last().0;
    let all = before.frame->Some_0 + receive::channel_bytes(packet, PACKET_LEN as int);
    assert(packet.len() == PACKET_LEN);
    assert(before.frame == Some(frame.take(504)));
    assert(all.take(CHANNELS as int) =~= frame);
    assert(receive::padded(frame, CHANNELS as nat) =~= frame);
    assert(before.accept(packet, PACKET_LEN as int) == before.gather(packet, PACKET_LEN as int));
    assert(feed(state, reads).1 =~= seq![frame]);
}

/// Part-way through a frame, what is gathered is the front of it, and nothing else has
/// changed since it was opened.
proof fn lemma_partial_frame(state: RxState, frame: Seq<u8>, trailer: Seq<u8>, k: int)
    requires
        state.wf(),
        frame.len() == CHANNELS,
        trailer.len() == 55,
        1 <= k <= 8,
    ensures
        ({
            let reads = device_packets(frame, trailer);
            let (after, frames) = feed(state, reads.take(k));
            &&& frames.len() == 0
            &&& after == (RxState {
                frame: Some(frame.take(63 * k)),
                ..state.open_frame(reads[0].0, PACKET_LEN as int)
            })
        }),
    decreases k,
{
    let reads = device_packets(frame, trailer).take(k);
    let packet = reads.last().0;
    assert(packet.len() == PACKET_LEN);
    assert(packet.subrange(1, PACKET_LEN as int) =~= frame.subrange(63 * (k - 1), 63 * k));
    if k == 1 {
        assert(reads.drop_last() =~= Seq::<(Seq<u8>, int)>::empty());
        law_first_tag_starts_afresh(state, packet, PACKET_LEN as int);
        assert(frame.subrange(0, 63) =~= frame.take(63));
    } else {
        lemma_partial_frame(state, frame, trailer, k - 1);
        assert(reads.drop_last() =~= device_packets(frame, trailer).take(k - 1));
        let before = feed(state, reads.drop_last()).0;
        assert(before.accept(packet, PACKET_LEN as int) == before.gather(
            packet,
            PACKET_LEN as int,
        ));
        assert(before.frame->Some_0 + packet.subrange(1, PACKET_LEN as int) =~= frame.take(63 * k));
    }
}

/// The reads that were not idle.
pub open spec fn busy(reads: Seq<(Seq<u8>, int)>) -> Seq<(Seq<u8>, int)>
    decreases reads.len(),
{
    if reads.len() == 0 {
        Seq::empty()
    } else if reads.last().1 == 0 {
        busy(reads.drop_last())
    } else {
        busy(reads.drop_last()).push(reads.last())
    }
}

/// Two states that differ at most in the count of idle reads.
pub open spec fn alike(a: RxState, b: RxState) -> bool {
    a.with_stats(RxStats { timeouts: 0, ..a.stats }) == b.with_stats(
        RxStats { timeouts: 0, ..b.stats },
    )
}

/// Idle reads, wherever they fall, do not matter: the same frames are received without
/// them, and the state is the same but for the count of idle reads.
pub proof fn law_idle_reads_are_absorbed(state: RxState, reads: Seq<(Seq<u8>, int)>)
    ensures
        feed(state, reads).1 == feed(state, busy(reads)).1,
        alike(feed(state, reads).0, feed(state, busy(reads)).0),
    decreases reads.len(),
{
    if reads.len() > 0 {
        let rest = reads.drop_last();
        law_idle_reads_are_absorbed(state, rest);
        let (packet, n) = reads.last();
        if n != 0 {
            assert(busy(reads).drop_last() =~= busy(rest));
            lemma_alike_accept(feed(state, rest).0, feed(state, busy(rest)).0, packet, n);
        }
    }
}

proof fn lemma_alike_accept(a: RxState, b: RxState, packet: Seq<u8>, n: int)
    requires
        alike(a, b),
        n != 0,
    ensures
        alike(a.accept(packet, n).0, b.accept(packet, n).0),
        a.accept(packet, n).1 == b.accept(packet, n).1,
{
    assert(b == a.with_stats(RxStats { timeouts: b.stats.timeouts, ..a.stats }));
}

/// A tag that packets of a frame have.
pub open spec fn known_tag(tag: u8) -> bool {
    tag == TAG_FIRST || tag == TAG_CONT || tag == TAG_LAST
}

/// The reads that did not bring a packet with an unknown tag.
pub open spec fn known(reads: Seq<(Seq<u8>, int)>) -> Seq<(Seq<u8>, int)>
    decreases reads.len(),
{
    if reads.len() == 0 {
        Seq::empty()
    } else if reads.last().1 != 0 && !known_tag(reads.last().0[0]) {
        known(reads.drop_last())
    } else {
        known(reads.drop_last()).push(reads.last())
    }
}

/// Two states of one reassembly: they agree in the frame in progress, the remembered
/// closing packet, and the counters of frames, idle reads, resyncs, orphans and stale
/// packets. They may differ in what unknown packets leave behind: their own counter,
/// that of short packets, and the records.
pub open spec fn same_reassembly(a: RxState, b: RxState) -> bool {
    &&& a.frame == b.frame
    &&& a.last_final == b.last_final
    &&& a.stats.frames == b.stats.frames
    &&& a.stats.timeouts == b.stats.timeouts
    &&& a.stats.resyncs == b.stats.resyncs
    &&& a.stats.orphans == b.stats.orphans
    &&& a.stats.stale_last == b.stats.stale_last
}

/// Packets with an unknown tag, wherever they fall, do not matter: the same frames are
/// received without them, and the reassembly is the same.
pub proof fn law_unknown_tags_are_ignored(state: RxState, reads: Seq<(Seq<u8>, int)>)
    ensures
        feed(state, reads).1 == feed(state, known(reads)).1,
        same_reassembly(feed(state, reads).0, feed(state, known(reads)).0),
    decreases reads.len(),
{
    if reads.len() > 0 {
        let rest = reads.drop_last();
        law_unknown_tags_are_ignored(state, rest);
        let (packet, n) = reads.last();
        let with = feed(state, rest).0;
        if n != 0 && !known_tag(packet[0]) {
            assert(same_reassembly(with.accept(packet, n).0, with));
        } else {
            assert(known(reads).drop_last() =~= known(rest));
            lemma_same_accept(with, feed(state, known(rest)).0, packet, n);
        }
    }
}

proof fn lemma_same_accept(a: RxState, b: RxState, packet: Seq<u8>, n: int)
    requires
        same_reassembly(a, b),
    ensures
        same_reassembly(a.accept(packet, n).0, b.accept(packet, n).0),
        a.accept(packet, n).1 == b.accept(packet, n).1,
{
}

/// Every transfer is a bulk read that did not fail.
pub open spec fn all_arrived<E>(transfers: Seq<Transfer<E>>) -> bool {
    forall|i: int|
        0 <= i < transfers.len() ==> {
            &&& (#[trigger] transfers[i]) is BulkIn
            &&& transfers[i]->BulkIn_read is Ok
        }
}

/// What arrived in bulk reads: each packet buffer, and the number of bytes in it.
pub open spec fn arrivals<E>(transfers: Seq<Transfer<E>>) -> Seq<(Seq<u8>, int)> {
    Seq::new(
        transfers.len(),
        |i: int| (transfers[i]->BulkIn_filled, transfers[i]->BulkIn_read->Ok_0 as int),
    )
}

/// Waiting is feeding: reads of which none fails, and none but the last completes a
/// frame, lead a wait to the state and to the frame that they lead to when they are fed
/// to the reassembly one by one.
pub proof fn law_waiting_is_feeding<E>(state: RxState, transfers: Seq<Transfer<E>>)
    requires
        all_arrived(transfers),
        transfers.len() > 0 ==> feed(state, arrivals(transfers.drop_last())).1.len() == 0,
    ensures
        ({
            let (after, frames) = feed(state, arrivals(transfers));
            &&& frames.len() <= 1
            &&& receive::wait_reads(state, transfers) == (
                after,
                if frames.len() == 0 {
                    None
                } else {
                    Some(Ended::<E>::Frame(frames[0]))
                },
            )
        }),
    decreases transfers.len(),
{
    if transfers.len() > 0 {
        let rest = transfers.drop_last();
        assert(arrivals(transfers).drop_last() =~= arrivals(rest));
        if rest.len() > 0 {
            assert(arrivals(rest).drop_last() =~= arrivals(rest.drop_last()));
        }
        assert forall|i: int| 0 <= i < rest.len() implies (#[trigger] rest[i]) is BulkIn
            && rest[i]->BulkIn_read is Ok by {
            assert(rest[i] == transfers[i]);
        }
        law_waiting_is_feeding(state, rest);
        assert(transfers.last() == transfers[transfers.len() - 1]);
    }
}

/// A wait delivers every frame that the device sends, as it was sent and without the
/// trailer, from any state of the reassembly: it ends with the frame at the last of its
/// packets, and not before. Idle reads on the way do not matter.
pub proof fn law_waits_deliver_frames<E>(
    state: RxState,
    frame: Seq<u8>,
    trailer: Seq<u8>,
    transfers: Seq<Transfer<E>>,
)
    requires
        state.wf(),
        frame.len() == CHANNELS,
        trailer.len() == 55,
        all_arrived(transfers),
        busy(arrivals(transfers)) == device_packets(frame, trailer),
        arrivals(transfers).last().1 != 0,
    ensures
        receive::wait_reads(state, transfers).1 == Some(Ended::<E>::Frame(frame)),
        receive::wait_reads(state, transfers.drop_last()).1 is None,
{
    let reads = arrivals(transfers);
    let rest = transfers.drop_last();
    assert(transfers.len() > 0) by {
        assert(device_packets(frame, trailer).len() == 9);
    }
    assert(reads.drop_last() =~= arrivals(rest));
    assert(busy(arrivals(rest)) =~= device_packets(frame, trailer).drop_last());
    law_frames_round_trip(state, frame, trailer);
    law_idle_reads_are_absorbed(state, reads);
    law_idle_reads_are_absorbed(state, arrivals(rest));
    law_waiting_is_feeding(state, transfers);
    if rest.len() > 0 {
        lemma_earlier_frames(state, arrivals(rest));
        assert(arrivals(rest).drop_last() =~= arrivals(rest.drop_last()));
    }
    law_waiting_is_feeding(state, rest);
}

/// What the first reads complete is completed by more reads too.
proof fn lemma_earlier_frames(state: RxState, reads: Seq<(Seq<u8>, int)>)
    requires
        reads.len() > 0,
    ensures
        feed(state, reads.drop_last()).1.len() <= feed(state, reads).1.len(),
{
}

/// Nine reads that bring the nine packets of a frame, and nothing else, end a wait and a
/// poll alike: with that frame, at the ninth.
pub proof fn law_nine_reads_deliver_a_frame<E>(
    state: RxState,
    frame: Seq<u8>,
    trailer: Seq<u8>,
    transfers: Seq<Transfer<E>>,
)
    requires
        state.wf(),
        frame.len() == CHANNELS,
        trailer.len() == 55,
        all_arrived(transfers),
        arrivals(transfers) == device_packets(frame, trailer),
    ensures
        transfers.len() == 9,
        receive::wait_reads(state, transfers).1 == Some(Ended::<E>::Frame(frame)),
        receive::wait_reads(state, transfers.drop_last()).1 is None,
        receive::poll_reads(state, transfers) == receive::wait_reads(state, transfers),
        receive::poll_reads(state, transfers.drop_last()).1 is None,
{
    let reads = device_packets(frame, trailer);
    assert(transfers.len() == 9) by {
        assert(arrivals(transfers).len() == reads.len());
    }
    lemma_all_busy(reads);
    law_waits_deliver_frames(state, frame, trailer, transfers);
    assert forall|i: int| 0 <= i < transfers.len() implies arrives(#[trigger] transfers[i]) by {
        assert(arrivals(transfers)[i] == reads[i]);
    }
    lemma_busy_wait_is_poll(state, transfers);
    lemma_busy_wait_is_poll(state, transfers.drop_last());
}

/// Reads of which none is idle are all kept.
proof fn lemma_all_busy(reads: Seq<(Seq<u8>, int)>)
    requires
        forall|i: int| 0 <= i < reads.len() ==> (#[trigger] reads[i]).1 != 0,
    ensures
        busy(reads) == reads,
    decreases reads.len(),
{
    if reads.len() > 0 {
        lemma_all_busy(reads.drop_last());
        assert(busy(reads) =~= reads);
    }
}

/// The transfer is a bulk read that brought something.
spec fn arrives<E>(transfer: Transfer<E>) -> bool {
    &&& transfer is BulkIn
    &&& transfer->BulkIn_read is Ok
    &&& transfer->BulkIn_read->Ok_0 != 0
}

proof fn lemma_busy_wait_is_poll<E>(state: RxState, transfers: Seq<Transfer<E>>)
    requires
        forall|i: int| 0 <= i < transfers.len() ==> arrives(#[trigger] transfers[i]),
    ensures
        receive::poll_reads(state, transfers) == receive::wait_reads(state, transfers),
    decreases transfers.len(),
{
    if transfers.len() > 0 {
        let rest = transfers.drop_last();
        assert forall|i: int| 0 <= i < rest.len() implies arrives(#[trigger] rest[i]) by {
            assert(rest[i] == transfers[i]);
        }
        lemma_busy_wait_is_poll(state, rest);
        assert(arrives(transfers[transfers.len() - 1]));
    }
}

/// Polling in a loop is waiting: once a poll has come back idle, whatever further reads
/// lead to is what they lead to for a wait that made all the reads itself.
pub proof fn law_polling_is_waiting<E>(
    state: RxState,
    polled: Seq<Transfer<E>>,
    further: Seq<Transfer<E>>,
)
    requires
        polled.len() > 0,
        receive::poll_reads(state, polled.drop_last()).1 is None,
        receive::poll_reads(state, polled).1 == Some(Ended::<E>::Idle),
    ensures
        receive::wait_reads(state, polled + further) == receive::wait_reads(
            receive::poll_reads(state, polled).0,
            further,
        ),
    decreases further.len(),
{
    let reached = receive::poll_reads(state, polled).0;
    if further.len() == 0 {
        assert(polled + further =~= polled);
        lemma_unfinished_poll_is_wait(state, polled.drop_last());
    } else {
        assert((polled + further).drop_last() =~= polled + further.drop_last());
        law_polling_is_waiting(state, polled, further.drop_last());
    }
}

/// A poll that does end with a failure or a frame ends as a wait would.
pub proof fn law_finished_poll_is_finished_wait<E>(state: RxState, polled: Seq<Transfer<E>>)
    requires
        polled.len() > 0,
        receive::poll_reads(state, polled.drop_last()).1 is None,
        receive::poll_reads(state, polled).1 != Some(Ended::<E>::Idle),
    ensures
        receive::wait_reads(state, polled) == receive::poll_reads(state, polled),
{
    lemma_unfinished_poll_is_wait(state, polled.drop_last());
}

proof fn lemma_unfinished_poll_is_wait<E>(state: RxState, reads: Seq<Transfer<E>>)
    requires
        receive::poll_reads(state, reads).1 is None,
    ensures
        receive::wait_reads(state, reads) == receive::poll_reads(state, reads),
    decreases reads.len(),
{
    if reads.len() > 0 {
        lemma_unfinished_poll_is_wait(state, reads.drop_last());
    }
}

/// What a packet does to the frame in progress, for every packet and every length.
///
/// A packet with the tag `0x40` begins a frame with the bytes behind its tag. One with
/// the tag `0x41` or `0x42` adds its channel bytes to the frame in progress: all that
/// arrived behind the tag `0x41`, and the first eight behind `0x42`. The frame is
/// delivered when it has 512 channels, or at the tag `0x42` with zeros in the place of
/// those that are missing; that packet is remembered. Any other packet leaves the frame
/// in progress and the remembered packet as they were.
pub proof fn law_packets_build_the_frame(state: RxState, packet: Seq<u8>, n: int)
    requires
        state.frame matches Some(bytes) ==> bytes.len() < 512,
        packet.len() == 64,
        1 <= n <= 64,
    ensures
        ({
            let (after, step) = state.accept(packet, n);
            let tag = packet[0];
            if tag == 0x40 {
                &&& step is Pending
                &&& after.frame == Some(packet.subrange(1, n))
                &&& after.last_final == state.last_final
            } else if (tag == 0x41 || tag == 0x42) && state.frame is Some {
                let end = if tag == 0x42 && n > 9 {
                    9
                } else {
                    n
                };
                let all = state.frame->Some_0 + packet.subrange(1, end);
                &&& after.last_final == if tag == 0x42 {
                    Some(packet)
                } else {
                    state.last_final
                }
                &&& if tag == 0x42 || all.len() >= 512 {
                    &&& after.frame is None
                    &&& step is Frame
                    &&& step->Frame_0.len() == 512
                    &&& forall|i: int|
                        0 <= i < 512 ==> #[trigger] step->Frame_0[i] == if i < all.len() {
                            all[i]
                        } else {
                            0u8
                        }
                } else {
                    &&& after.frame == Some(all)
                    &&& step is Pending
                }
            } else {
                &&& step is Pending
                &&& after.frame == state.frame
                &&& after.last_final == state.last_final
            }
        }),
{
    if packet[0] == 0x40 {
        law_first_tag_starts_afresh(state, packet, n);
    }
}

/// What a packet counts, for every packet and every length, each counter by one and
/// modulo 2 to the 32: a delivered frame; a packet under 64 bytes; a tag `0x40` with
/// channels gathered before it; a tag `0x42` with no frame in progress, as stale if the
/// packet is the remembered one; any other tag `0x41` or `0x42` with no frame in
/// progress, as an orphan; and any other tag. Idle reads are counted for what they are.
pub proof fn law_packets_are_counted(state: RxState, packet: Seq<u8>, n: int)
    requires
        packet.len() == 64,
        0 <= n <= 64,
    ensures
        ({
            let (after, step) = state.accept(packet, n);
            let tag = packet[0];
            let gathered = state.frame is Some && state.frame->Some_0.len() > 0;
            let adrift = n > 0 && state.frame is None && (tag == 0x41 || tag == 0x42);
            let resent = tag == 0x42 && state.last_final == Some(packet);
            &&& n == 0 <==> step is Idle
            &&& after.stats.frames == (state.stats.frames + if step is Frame {
                1int
            } else {
                0
            }) % 0x1_0000_0000
            &&& after.stats.timeouts == (state.stats.timeouts + if n == 0 {
                1int
            } else {
                0
            }) % 0x1_0000_0000
            &&& after.stats.resyncs == (state.stats.resyncs + if n > 0 && tag == 0x40 && gathered {
                1int
            } else {
                0
            }) % 0x1_0000_0000
            &&& after.stats.orphans == (state.stats.orphans + if adrift && !resent {
                1int
            } else {
                0
            }) % 0x1_0000_0000
            &&& after.stats.stale_last == (state.stats.stale_last + if adrift && resent {
                1int
            } else {
                0
            }) % 0x1_0000_0000
            &&& after.stats.unknown_tags == (state.stats.unknown_tags + if n > 0 && tag != 0x40
                && tag != 0x41 && tag != 0x42 {
                1int
            } else {
                0
            }) % 0x1_0000_0000
            &&& after.stats.short_packets == (state.stats.short_packets + if 0 < n < 64 {
                1int
            } else {
                0
            }) % 0x1_0000_0000
            &&& n == 0 ==> after.frame == state.frame && after.last_final == state.last_final
        }),
{
}

/// What a packet leaves in the records, for every packet and every length: behind the
/// earlier ones come one for a length under 64, and one for what else is wrong with the
/// packet, each with its tag, its length, how many channels were gathered before, and
/// eight bytes by which to know it. Those are the first ones behind the tag, with zeros
/// for what did not arrive, or for an abandoned frame the first ones of that frame.
/// Sixteen records are kept, and what is over that is counted as dropped.
pub proof fn law_anomalies_are_described(state: RxState, packet: Seq<u8>, n: int)
    requires
        state.frame matches Some(bytes) ==> bytes.len() < 512,
        state.events.len() <= 16,
        packet.len() == 64,
        0 <= n <= 64,
    ensures
        ({
            let after = state.accept(packet, n).0;
            let tag = packet[0];
            let gathered = match state.frame {
                Some(bytes) => bytes,
                None => Seq::empty(),
            };
            let arrived = Seq::new(
                8,
                |i: int|
                    if 1 + i < n {
                        packet[1 + i]
                    } else {
                        0u8
                    },
            );
            let of_frame = Seq::new(
                8,
                |i: int|
                    if i < gathered.len() {
                        gathered[i]
                    } else {
                        0u8
                    },
            );
            let short = if 0 < n < 64 {
                seq![
                    RxEventView {
                        kind: RxEventKind::ShortPacket,
                        tag,
                        len: n as u8,
                        got: gathered.len() as u16,
                        head: arrived,
                    },
                ]
            } else {
                Seq::empty()
            };
            let other = if n == 0 {
                Seq::empty()
            } else if tag == 0x40 {
                if gathered.len() > 0 {
                    seq![
                        RxEventView {
                            kind: RxEventKind::Resync,
                            tag,
                            len: n as u8,
                            got: gathered.len() as u16,
                            head: of_frame,
                        },
                    ]
                } else {
                    Seq::empty()
                }
            } else if (tag == 0x41 || tag == 0x42) && state.frame is Some {
                Seq::empty()
            } else {
                seq![
                    RxEventView {
                        kind: if tag == 0x42 && state.last_final == Some(packet) {
                            RxEventKind::StaleLast
                        } else if tag == 0x41 || tag == 0x42 {
                            RxEventKind::Orphan
                        } else {
                            RxEventKind::UnknownTag
                        },
                        tag,
                        len: n as u8,
                        got: gathered.len() as u16,
                        head: arrived,
                    },
                ]
            };
            let all = state.events + short + other;
            let kept = if all.len() < 16 {
                all.len() as int
            } else {
                16
            };
            &&& after.events == all.take(kept)
            &&& after.stats.events_dropped == (state.stats.events_dropped + all.len() - kept)
                % 0x1_0000_0000
        }),
{
    let gathered = match state.frame {
        Some(bytes) => bytes,
        None => Seq::empty(),
    };
    let arrived = Seq::new(
        8,
        |i: int|
            if 1 + i < n {
                packet[1 + i]
            } else {
                0u8
            },
    );
    let of_frame = Seq::new(
        8,
        |i: int|
            if i < gathered.len() {
                gathered[i]
            } else {
                0u8
            },
    );
    if n > 0 {
        assert(receive::padded(packet.subrange(1, n), HEAD_LEN as nat) =~= arrived);
    }
    assert(receive::padded(gathered, HEAD_LEN as nat) =~= of_frame);
}

/// A reassembly starts with nothing counted, nothing gathered and nothing recorded, and
/// setting its counters changes nothing else. The valid states are those with at most
/// 511 channels gathered, a whole remembered packet, and at most sixteen records.
pub proof fn law_reassembly_starts_empty(state: RxState, stats: RxStats)
    ensures
        RxState::initial().stats == receive::no_stats(),
        RxState::initial().frame is None,
        RxState::initial().last_final is None,
        RxState::initial().events.len() == 0,
        receive::no_stats().frames == 0,
        receive::no_stats().timeouts == 0,
        receive::no_stats().resyncs == 0,
        receive::no_stats().orphans == 0,
        receive::no_stats().stale_last == 0,
        receive::no_stats().unknown_tags == 0,
        receive::no_stats().short_packets == 0,
        receive::no_stats().events_dropped == 0,
        state.with_stats(stats).stats == stats,
        state.with_stats(stats).frame == state.frame,
        state.with_stats(stats).last_final == state.last_final,
        state.with_stats(stats).events == state.events,
        state.wf() <==> {
            &&& state.frame is Some ==> state.frame->Some_0.len() < 512
            &&& state.last_final is Some ==> state.last_final->Some_0.len() == 64
            &&& state.events.len() <= 16
        },
{
}

/// A record is what its fields say, and progress is what it is named after.
pub proof fn law_records_and_progress_are_seen_as_they_are(event: RxEvent, progress: Progress)
    ensures
        event@.kind == event.kind,
        event@.tag == event.tag,
        event@.len == event.len,
        event@.got == event.got,
        event@.head == event.head@,
        progress is Idle <==> progress@ is Idle,
        progress is Pending <==> progress@ is Pending,
        progress is Frame <==> progress@ is Frame,
        progress is Frame ==> progress@->Frame_0 == progress->Frame_0@,
{
}

/// Every read of the receive path is of endpoint `0x84`, into 64 zeroed bytes.
pub proof fn law_packets_are_read_from_the_receive_endpoint<E>(transfer: Transfer<E>)
    requires
        receive::receive_read(transfer),
    ensures
        transfer is BulkIn,
        transfer->BulkIn_endpoint == 0x84,
        transfer->BulkIn_offered.len() == 64,
        forall|i: int| 0 <= i < 64 ==> #[trigger] transfer->BulkIn_offered[i] == 0,
        transfer->BulkIn_filled.len() == 64,
        transfer->BulkIn_read is Ok ==> transfer->BulkIn_read->Ok_0 <= 64,
{
}

/// A poll goes on read by read: each read is dealt with in the state that the earlier
/// ones left. An idle one ends the poll, and so do a delivered frame and a failure,
/// which leaves the state as it was.
pub proof fn law_poll_goes_read_by_read<E>(
    state: RxState,
    reads: Seq<Transfer<E>>,
    endpoint: u8,
    offered: Seq<u8>,
    filled: Seq<u8>,
    read: Result<usize, E>,
)
    requires
        receive::poll_reads(state, reads).1 is None,
    ensures
        receive::poll_reads(state, Seq::<Transfer<E>>::empty()) == (state, None::<Ended<E>>),
        ({
            let before = receive::poll_reads(state, reads).0;
            let (after, ended) = receive::poll_reads(
                state,
                reads.push(Transfer::BulkIn { endpoint, offered, filled, read }),
            );
            match read {
                Err(e) => {
                    &&& after == before
                    &&& ended == Some(Ended::Failed(e))
                },
                Ok(n) => {
                    let (next, step) = before.accept(filled, n as int);
                    &&& after == next
                    &&& step is Idle <==> ended == Some(Ended::<E>::Idle)
                    &&& step is Pending <==> ended is None
                    &&& step is Frame ==> ended == Some(Ended::<E>::Frame(step->Frame_0))
                },
            }
        }),
{
    let transfer = Transfer::BulkIn { endpoint, offered, filled, read };
    assert(reads.push(transfer).drop_last() =~= reads);
}

/// A wait goes on read by read in the same way, but an idle read does not end it.
pub proof fn law_wait_goes_read_by_read<E>(
    state: RxState,
    reads: Seq<Transfer<E>>,
    endpoint: u8,
    offered: Seq<u8>,
    filled: Seq<u8>,
    read: Result<usize, E>,
)
    requires
        receive::wait_reads(state, reads).1 is None,
    ensures
        receive::wait_reads(state, Seq::<Transfer<E>>::empty()) == (state, None::<Ended<E>>),
        ({
            let before = receive::wait_reads(state, reads).0;
            let (after, ended) = receive::wait_reads(
                state,
                reads.push(Transfer::BulkIn { endpoint, offered, filled, read }),
            );
            match read {
                Err(e) => {
                    &&& after == before
                    &&& ended == Some(Ended::Failed(e))
                },
                Ok(n) => {
                    let (next, step) = before.accept(filled, n as int);
                    &&& after == next
                    &&& step is Idle || step is Pending <==> ended is None
                    &&& step is Frame ==> ended == Some(Ended::<E>::Frame(step->Frame_0))
                },
            }
        }),
{
    let transfer = Transfer::BulkIn { endpoint, offered, filled, read };
    assert(reads.push(transfer).drop_last() =~= reads);
}

/// The caller is told how a poll or a wait ended: a failure as the transport's, a frame
/// with its channels, and an idle poll as nothing yet.
pub proof fn law_caller_is_told_how_it_ended<E>(
    ended: Ended<E>,
    polled: Result<Option<Universe>, Error<E>>,
    waited: Result<Universe, Error<E>>,
)
    ensures
        receive::poll_result(ended, polled) <==> match ended {
            Ended::Failed(e) => polled is Err && polled->Err_0 == Error::Transport(e),
            Ended::Idle => polled is Ok && polled->Ok_0 is None,
            Ended::Frame(frame) => polled is Ok && polled->Ok_0 is Some && polled->Ok_0->Some_0@
                == frame,
        },
        receive::wait_result(ended, waited) ==> match ended {
            Ended::Failed(e) => waited is Err && waited->Err_0 == Error::Transport(e),
            Ended::Idle => false,
            Ended::Frame(frame) => waited is Ok && waited->Ok_0@ == frame,
        },
{
}

/// Receiving only frames with a given start code takes two writes to endpoint `0x02`:
/// the command for receive mode first, and behind it the filter command `0x04` with the
/// start code.
pub proof fn law_filter_follows_the_mode(start_code: u8)
    ensures
        receive::filtered_plan(start_code) == seq![
            Request::Bulk { endpoint: 0x02, data: seq![0x01u8, 0x02] },
            Request::Bulk { endpoint: 0x02, data: seq![0x04u8, start_code] },
        ],
        receive::START_CODE_FILTER == 0x04,
        PACKET_LEN == 64,
{
    assert(receive::filtered_plan(start_code) =~= seq![
        Request::Bulk { endpoint: 0x02, data: seq![0x01u8, 0x02] },
        Request::Bulk { endpoint: 0x02, data: seq![0x04u8, start_code] },
    ]);
}

} // verus!
