//! DMX-512 universe buffer and frame transmission.

use vstd::prelude::*;

use crate::error::Error;
use crate::transport;
use crate::transport::{Request, Transfer, Transport};

verus! {

/// Channels in one DMX-512 universe.
pub const CHANNELS: usize = 512;

/// The bulk OUT endpoints the loaded device advertises.
///
/// The DMX data channel is `0x02`: it is where the firmware's chunk reassembler
/// reads commands. `0x04` stalls, `0x05` is not used for data.
pub const OUT_ENDPOINT_CANDIDATES: [u8; 3] = [0x02, 0x04, 0x05];

/// The DMX data endpoint that the chunked frame is delivered to.
pub const DEFAULT_OUT_ENDPOINT: u8 = 0x02;

/// Channel address outside the DMX range `1..=512`.
#[derive(Debug, Clone, Copy, PartialEq, Eq, Structural)]
pub struct OutOfRange;

/// The slots of a universe with every channel at zero.
pub open spec fn dark() -> Seq<u8> {
    Seq::new(CHANNELS as nat, |i: int| 0u8)
}

/// A DMX-512 universe: 512 channel slots.
pub struct Universe {
    slots: [u8; CHANNELS],
}

impl View for Universe {
    type V = Seq<u8>;

    closed spec fn view(&self) -> Seq<u8> {
        self.slots@
    }
}

impl Universe {
    /// A universe always has [`CHANNELS`] slots.
    pub proof fn law_slot_count(&self)
        ensures
            self@.len() == CHANNELS,
    {
    }

    /// A universe with every channel at zero.
    pub fn new() -> (universe: Self)
        ensures
            universe@ == dark(),
    {
        let universe = Universe { slots: [0u8; CHANNELS] };
        assert(universe@ =~= dark());
        universe
    }

    /// Set a channel using 1-based DMX addressing.
    ///
    /// Rejects `0` and out-of-range addresses rather than silently aliasing them
    /// onto a valid slot.
    pub fn set(&mut self, channel: u16, value: u8) -> (result: Result<(), OutOfRange>)
        ensures
            1 <= channel <= CHANNELS ==> result is Ok && final(self)@ == old(self)@.update(
                channel - 1,
                value,
            ),
            !(1 <= channel <= CHANNELS) ==> result is Err && final(self)@ == old(self)@,
    {
        if channel == 0 || channel as usize > CHANNELS {
            return Err(OutOfRange);
        }
        self.slots[channel as usize - 1] = value;
        Ok(())
    }

    /// The channel slots, indexed 0-based.
    pub fn channels(&self) -> (slots: &[u8; CHANNELS])
        ensures
            slots@ == self@,
    {
        &self.slots
    }

    /// The channel slots for direct mutation, indexed 0-based.
    pub fn channels_mut(&mut self) -> (slots: &mut [u8; CHANNELS])
        ensures
            slots@ == old(self)@,
            final(self)@ == final(slots)@,
    {
        &mut self.slots
    }

    /// The bytes placed on the wire for one frame: 512 channel slots, no start
    /// code. The firmware prepends the DMX start code itself, so all 512 bytes are
    /// channel data and channel `n` maps to slot `n`.
    pub fn frame(&self) -> (bytes: &[u8])
        ensures
            bytes@ == self@,
    {
        &self.slots
    }
}

impl Clone for Universe {
    fn clone(&self) -> (copy: Self)
        ensures
            copy@ == self@,
    {
        Universe { slots: self.slots }
    }
}

impl Default for Universe {
    fn default() -> (universe: Self)
        ensures
            universe@ == dark(),
    {
        Self::new()
    }
}

/// Largest packet the DMX endpoint takes.
pub const MAX_CHUNK: usize = 64;

/// Per-chunk header: a tag byte and a 16-bit little-endian destination offset.
pub const CHUNK_HEADER: usize = 3;

/// Largest channel span per chunk: the 64-byte packet less the 3-byte header.
pub const MAX_CHUNK_DATA: usize = MAX_CHUNK - CHUNK_HEADER;

/// Tag for a fill chunk: data lands in the frame buffer, not yet committed.
pub const TAG_FILL: u8 = 0x30;

/// Tag for the committing chunk: writes its data, then swaps the double buffer
/// and releases the frame for transmission.
///
/// Tag `0x32` also commits, but its distinction from `0x31` (most likely one-shot
/// versus continuous retransmit) is unconfirmed in the firmware, so it is never
/// sent.
pub const TAG_COMMIT: u8 = 0x31;

/// Where the channel span that starts at `offset` ends.
pub open spec fn span_end(frame: Seq<u8>, offset: int) -> int {
    if offset + MAX_CHUNK_DATA < frame.len() {
        offset + MAX_CHUNK_DATA
    } else {
        frame.len() as int
    }
}

/// The packet for the span that starts at `offset`: the tag, the offset low byte
/// first, and the channel bytes. The last span commits the frame.
pub open spec fn chunk_at(frame: Seq<u8>, offset: int) -> Seq<u8> {
    let end = span_end(frame, offset);
    seq![
        if end == frame.len() {
            TAG_COMMIT
        } else {
            TAG_FILL
        },
        (offset % 256) as u8,
        (offset / 256) as u8,
    ] + frame.subrange(offset, end)
}

/// How many chunks a frame takes.
pub open spec fn chunk_count(frame: Seq<u8>) -> nat {
    ((frame.len() + MAX_CHUNK_DATA - 1) / MAX_CHUNK_DATA as int) as nat
}

/// The packets of one frame: its spans in order, each but the last one full.
pub open spec fn frame_chunks(frame: Seq<u8>) -> Seq<Seq<u8>> {
    Seq::new(chunk_count(frame), |i: int| chunk_at(frame, i * MAX_CHUNK_DATA))
}

/// The requests that deliver a frame to a bulk OUT endpoint.
pub open spec fn send_plan(endpoint: u8, frame: Seq<u8>) -> Seq<Request> {
    Seq::new(
        chunk_count(frame),
        |i: int| Request::Bulk { endpoint, data: chunk_at(frame, i * MAX_CHUNK_DATA) },
    )
}

/// Build the chunk for the channels from `offset` on at the front of `packet`, and
/// return its length.
///
/// The chunk covers as many channels as fit, so the next one starts
/// `length - CHUNK_HEADER` channels further on; the frame is complete once that
/// comes to [`CHANNELS`].
pub fn pack_chunk(universe: &Universe, offset: usize, packet: &mut [u8; MAX_CHUNK]) -> (length:
    usize)
    requires
        offset < CHANNELS,
    ensures
        length == CHUNK_HEADER + span_end(universe@, offset as int) - offset,
        final(packet)@ == chunk_at(universe@, offset as int) + old(packet)@.skip(length as int),
{
    proof {
        universe.law_slot_count();
    }
    let frame = universe.channels();
    let ghost before = packet@;
    let span: usize = if CHANNELS - offset < MAX_CHUNK_DATA {
        CHANNELS - offset
    } else {
        MAX_CHUNK_DATA
    };
    // The last span commits the frame; every earlier one only fills.
    packet[0] = if offset + span == CHANNELS {
        TAG_COMMIT
    } else {
        TAG_FILL
    };
    packet[1] = (offset % 256) as u8;
    packet[2] = (offset / 256) as u8;
    let ghost header = seq![
        if offset + span == CHANNELS {
            TAG_COMMIT
        } else {
            TAG_FILL
        },
        (offset as int % 256) as u8,
        (offset as int / 256) as u8,
    ];
    assert(packet@ =~= header + frame@.subrange(offset as int, offset as int) + before.skip(3));
    let mut i: usize = 0;
    while i < span
        invariant
            i <= span <= MAX_CHUNK_DATA,
            offset + span <= CHANNELS,
            header.len() == CHUNK_HEADER,
            before.len() == MAX_CHUNK,
            packet@ == header + frame@.subrange(offset as int, offset + i) + before.skip(
                CHUNK_HEADER + i,
            ),
        decreases span - i,
    {
        packet[CHUNK_HEADER + i] = frame[offset + i];
        i += 1;
        assert(packet@ =~= header + frame@.subrange(offset as int, offset + i) + before.skip(
            CHUNK_HEADER + i,
        ));
    }
    CHUNK_HEADER + span
}

/// Send one universe as a sequence of tagged chunks.
///
/// The firmware reassembles its 512-channel buffer from chunks written to the DMX
/// endpoint: each packet is a [`CHUNK_HEADER`]-byte header (tag, then the 16-bit
/// little-endian destination offset) followed by up to [`MAX_CHUNK_DATA`] channel
/// bytes. Every span but the last is a fill chunk ([`TAG_FILL`]); the final span
/// commits the frame ([`TAG_COMMIT`]), which swaps the double buffer and triggers
/// transmission. Channel data only: the firmware inserts the DMX start code.
///
/// Call once per refresh; a full universe is 9 chunk writes.
pub fn send<T: Transport>(transport: &mut T, endpoint: u8, universe: &Universe) -> (result: Result<
    (),
    Error<T::Error>,
>)
    ensures
        transport::ran(
            old(transport).log(),
            final(transport).log(),
            send_plan(endpoint, universe@),
            result,
        ),
{
    let ghost frame = universe@;
    let ghost plan = send_plan(endpoint, frame);
    let ghost before = transport.log();
    let ghost mut done: int = 0;
    proof {
        universe.law_slot_count();
        law_only_the_last_chunk_commits(frame, 0);
        assert(plan.len() == frame_chunks(frame).len());
        assert(before.take(before.len() as int) =~= before);
    }
    let mut offset: usize = 0;
    while offset < CHANNELS
        invariant
            frame == universe@,
            frame.len() == CHANNELS,
            plan == send_plan(endpoint, frame),
            plan.len() == 9,
            before == old(transport).log(),
            0 <= done <= plan.len(),
            offset == if done < 9 {
                done * MAX_CHUNK_DATA
            } else {
                CHANNELS as int
            },
            transport::performed(before, transport.log(), plan.take(done), None::<T::Error>),
        decreases CHANNELS - offset,
    {
        let mut chunk = [0u8; MAX_CHUNK];
        let length: usize = pack_chunk(universe, offset, &mut chunk);
        assert(chunk@.take(length as int) =~= chunk_at(frame, offset as int));
        let ghost middle = transport.log();
        let outcome = transport.bulk_out(endpoint, &chunk[0..length]);
        proof {
            transport::lemma_performed_step(before, middle, done, plan, outcome);
            done = done + 1;
        }
        match outcome {
            Ok(()) => {},
            Err(e) => return Err(Error::Transport(e)),
        }
        offset = offset + (length - CHUNK_HEADER);
    }
    assert(plan.take(done) =~= plan);
    Ok(())
}

/// Setting a channel changes that channel's slot and no other: channel `n` is slot
/// `n - 1`, and no two channels share a slot.
pub proof fn law_channels_do_not_alias(slots: Seq<u8>, a: u16, b: u16, value: u8)
    requires
        slots.len() == CHANNELS,
        1 <= a <= CHANNELS,
        1 <= b <= CHANNELS,
    ensures
        slots.update(a - 1, value)[b - 1] == if a == b {
            value
        } else {
            slots[b - 1]
        },
{
}

/// What the firmware's buffer holds after a chunk: the channel bytes land at the
/// chunk's offset.
pub open spec fn absorb_chunk(buffer: Seq<u8>, packet: Seq<u8>) -> Seq<u8> {
    let offset = packet[1] + 256 * packet[2];
    let span = packet.len() - CHUNK_HEADER;
    Seq::new(
        buffer.len(),
        |i: int|
            if offset <= i < offset + span {
                packet[CHUNK_HEADER + i - offset]
            } else {
                buffer[i]
            },
    )
}

/// What the firmware's buffer holds after a sequence of chunks.
pub open spec fn absorb_chunks(buffer: Seq<u8>, packets: Seq<Seq<u8>>) -> Seq<u8>
    decreases packets.len(),
{
    if packets.len() == 0 {
        buffer
    } else {
        absorb_chunk(absorb_chunks(buffer, packets.drop_last()), packets.last())
    }
}

/// A frame takes nine chunks, none larger than a packet; their offsets tile the
/// universe; every chunk but the last one fills, and the last one commits.
pub proof fn law_only_the_last_chunk_commits(frame: Seq<u8>, i: int)
    requires
        frame.len() == CHANNELS,
        0 <= i < 9,
    ensures
        frame_chunks(frame).len() == 9,
        CHUNK_HEADER < frame_chunks(frame)[i].len() <= MAX_CHUNK,
        frame_chunks(frame)[i][0] == if i == 8 {
            TAG_COMMIT
        } else {
            TAG_FILL
        },
        frame_chunks(frame)[i][1] + 256 * frame_chunks(frame)[i][2] == i * MAX_CHUNK_DATA,
{
    assert(chunk_count(frame) == 9) by {
        assert(MAX_CHUNK_DATA == 61);
        assert((512 + 61 - 1) / 61int == 9);
    }
}

/// The firmware's buffer holds exactly the universe when the last chunk commits it,
/// whatever the buffer held before.
pub proof fn law_chunks_rebuild_the_frame(frame: Seq<u8>, buffer: Seq<u8>)
    requires
        frame.len() == CHANNELS,
        buffer.len() == CHANNELS,
    ensures
        absorb_chunks(buffer, frame_chunks(frame)) == frame,
{
    lemma_chunks_rebuild(frame, buffer, 9);
    assert(frame_chunks(frame).take(9) =~= frame_chunks(frame));
    assert(frame.take(CHANNELS as int) + buffer.skip(CHANNELS as int) =~= frame);
}

proof fn lemma_chunks_rebuild(frame: Seq<u8>, buffer: Seq<u8>, k: int)
    requires
        frame.len() == CHANNELS,
        buffer.len() == CHANNELS,
        0 <= k <= 9,
    ensures
        ({
            let reached = if k == 9 {
                CHANNELS as int
            } else {
                k * MAX_CHUNK_DATA
            };
            absorb_chunks(buffer, frame_chunks(frame).take(k)) == frame.take(reached)
                + buffer.skip(reached)
        }),
    decreases k,
{
    let packets = frame_chunks(frame).take(k);
    if k == 0 {
        assert(frame.take(0) + buffer.skip(0) =~= buffer);
    } else {
        lemma_chunks_rebuild(frame, buffer, k - 1);
        law_only_the_last_chunk_commits(frame, k - 1);
        assert(packets.drop_last() =~= frame_chunks(frame).take(k - 1));
        let start = (k - 1) * MAX_CHUNK_DATA;
        let reached = span_end(frame, start);
        assert(packets.last() == chunk_at(frame, start));
        assert(absorb_chunk(frame.take(start) + buffer.skip(start), packets.last()) =~= frame.take(
            reached,
        ) + buffer.skip(reached));
    }
}

/// A universe has 512 channels, and a new one has all of them at zero.
pub proof fn law_new_universe_is_dark()
    ensures
        CHANNELS == 512,
        dark().len() == 512,
        forall|i: int| 0 <= i < 512 ==> #[trigger] dark()[i] == 0,
{
}

/// The device advertises three bulk OUT endpoints, and a frame goes to the first one.
pub proof fn law_frames_go_to_the_first_endpoint()
    ensures
        OUT_ENDPOINT_CANDIDATES@ == seq![0x02u8, 0x04, 0x05],
        DEFAULT_OUT_ENDPOINT == OUT_ENDPOINT_CANDIDATES@[0],
{
    assert(OUT_ENDPOINT_CANDIDATES@ =~= seq![0x02u8, 0x04, 0x05]);
}

/// A chunk, wherever it starts: the tag, the offset low byte first, and up to 61
/// channels from there on, as they are. Only the chunk that comes to the end of the
/// frame commits.
pub proof fn law_chunk_carries_its_channels(frame: Seq<u8>, offset: int)
    requires
        frame.len() == 512,
        0 <= offset < 512,
    ensures
        ({
            let count = if 512 - offset < 61 {
                512 - offset
            } else {
                61
            };
            let chunk = chunk_at(frame, offset);
            &&& CHUNK_HEADER == 3
            &&& MAX_CHUNK == 64
            &&& span_end(frame, offset) == offset + count
            &&& chunk.len() == 3 + count
            &&& chunk[0] == if offset + count == 512 {
                0x31u8
            } else {
                0x30u8
            }
            &&& chunk[1] + 256 * chunk[2] == offset
            &&& forall|j: int| 0 <= j < count ==> #[trigger] chunk[3 + j] == frame[offset + j]
        }),
{
}

/// A universe is sent whole: nine writes to the endpoint, of which the i-th carries the
/// channels from slot `61 * i` on, each but the last 61 of them, under the tag `0x30`,
/// the last one the remaining 24 under the committing tag `0x31`. So every slot travels
/// in exactly one place.
pub proof fn law_universe_is_sent_whole(endpoint: u8, frame: Seq<u8>)
    requires
        frame.len() == 512,
    ensures
        ({
            let plan = send_plan(endpoint, frame);
            &&& plan.len() == 9
            &&& forall|i: int|
                0 <= i < 9 ==> #[trigger] plan[i] == (Request::Bulk {
                    endpoint,
                    data: seq![
                        if i == 8 {
                            0x31u8
                        } else {
                            0x30u8
                        },
                        (61 * i % 256) as u8,
                        (61 * i / 256) as u8,
                    ] + frame.subrange(
                        61 * i,
                        if i == 8 {
                            512
                        } else {
                            61 * i + 61
                        },
                    ),
                })
            &&& forall|k: int|
                0 <= k < 512 ==> plan[k / 61]->Bulk_data[3 + k % 61] == #[trigger] frame[k]
        }),
{
    let plan = send_plan(endpoint, frame);
    law_only_the_last_chunk_commits(frame, 0);
    assert(plan.len() == frame_chunks(frame).len());
    assert forall|i: int| 0 <= i < 9 implies #[trigger] plan[i] == (Request::Bulk {
        endpoint,
        data: seq![
            if i == 8 {
                0x31u8
            } else {
                0x30u8
            },
            (61 * i % 256) as u8,
            (61 * i / 256) as u8,
        ] + frame.subrange(
            61 * i,
            if i == 8 {
                512
            } else {
                61 * i + 61
            },
        ),
    }) by {
        assert(plan[i]->Bulk_data =~= seq![
            if i == 8 {
                0x31u8
            } else {
                0x30u8
            },
            (61 * i % 256) as u8,
            (61 * i / 256) as u8,
        ] + frame.subrange(
            61 * i,
            if i == 8 {
                512
            } else {
                61 * i + 61
            },
        ));
    }
    assert forall|k: int| 0 <= k < 512 implies plan[k / 61]->Bulk_data[3 + k % 61]
        == #[trigger] frame[k] by {
        let i = k / 61;
        assert(0 <= i < 9);
        assert(plan[i]->Bulk_data[3 + k % 61] == frame[61 * i + k % 61]);
    }
}

/// What is sent rebuilds the universe: the writes of a plan are the chunks of the frame,
/// on the endpoint asked for, and the firmware's buffer holds exactly the frame after
/// them, whatever it held before.
pub proof fn law_sent_chunks_rebuild_the_frame(endpoint: u8, frame: Seq<u8>, buffer: Seq<u8>)
    requires
        frame.len() == 512,
        buffer.len() == 512,
    ensures
        ({
            let plan = send_plan(endpoint, frame);
            let sent = Seq::new(plan.len(), |i: int| plan[i]->Bulk_data);
            &&& forall|i: int|
                0 <= i < plan.len() ==> (#[trigger] plan[i]) is Bulk && plan[i]->Bulk_endpoint
                    == endpoint
            &&& sent == frame_chunks(frame)
            &&& absorb_chunks(buffer, sent) == frame
        }),
{
    let plan = send_plan(endpoint, frame);
    let sent = Seq::new(plan.len(), |i: int| plan[i]->Bulk_data);
    assert(sent =~= frame_chunks(frame));
    law_chunks_rebuild_the_frame(frame, buffer);
}

/// The log of a universe that was sent: nine more transfers, all of them writes to the
/// endpoint that succeeded, of which the i-th holds the channels from slot `61 * i` on
/// under their offset.
pub proof fn law_sent_universe_is_logged_whole<E>(
    before: Seq<Transfer<E>>,
    after: Seq<Transfer<E>>,
    endpoint: u8,
    frame: Seq<u8>,
    i: int,
)
    requires
        frame.len() == 512,
        transport::ran(before, after, send_plan(endpoint, frame), Ok::<(), Error<E>>(())),
        0 <= i < 9,
    ensures
        after.len() == before.len() + 9,
        forall|k: int| 0 <= k < before.len() ==> #[trigger] after[k] == before[k],
        after[before.len() + i] == (Transfer::BulkOut {
            endpoint,
            data: seq![
                if i == 8 {
                    0x31u8
                } else {
                    0x30u8
                },
                (61 * i % 256) as u8,
                (61 * i / 256) as u8,
            ] + frame.subrange(
                61 * i,
                if i == 8 {
                    512
                } else {
                    61 * i + 61
                },
            ),
            outcome: Ok::<(), E>(()),
        }),
{
    let plan = send_plan(endpoint, frame);
    law_universe_is_sent_whole(endpoint, frame);
    transport::law_run_reports_its_failure(before, after, plan, Ok::<(), Error<E>>(()));
    transport::law_requests_are_logged_as_made(before, after, plan, None::<E>);
    assert(plan[i] is Bulk);
}

} // verus!
