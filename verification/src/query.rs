//! Vendor status and identity queries on the widget's command channel.
//!
//! The loaded device answers a small set of single-byte vendor queries sent on
//! the command bulk OUT endpoint; each reply arrives on the status bulk IN
//! endpoint, echoing the opcode in byte 0 followed by a little-endian value. The
//! serial ([`read_serial`]) matches the device's `iSerial` descriptor, and the
//! unique ID ([`read_id`]) matches `iConfiguration`, bit for bit.
//!
//! These are input-independent reads with no argument fields, so they make a
//! cheap, safe connectivity/identity check to run once at bring-up, proving the
//! command/response transport before any DMX is streamed.

use vstd::prelude::*;

use crate::anchor;
use crate::device;
use crate::device::Mode;
use crate::dmx;
use crate::error::Error;
use crate::receive;
use crate::transport::{Request, Transfer, Transport};

verus! {

/// Command (bulk OUT) endpoint that carries vendor queries.
pub const CMD_ENDPOINT: u8 = 0x02;

/// Status (bulk IN) endpoint that carries the replies.
pub const STATUS_ENDPOINT: u8 = 0x82;

/// Query opcode: read the device serial number.
pub const OP_SERIAL: u8 = 0x09;

/// Query opcode: read the 48-bit unique ID.
pub const OP_ID: u8 = 0x23;

/// Length of the unique-ID value, in bytes (a 48-bit identifier).
pub const ID_LEN: usize = 6;

/// Opcode `0x0B` is a *reserved, unsafe* command: it is a parameterised memory
/// read (firmware routine `0x14A7`) that stalls under most inputs and hangs the
/// device outright on a bad address, requiring a power-cycle to recover. This
/// crate must never send it; the value is named here so it is documented rather
/// than silently avoided.
pub const RESERVED_UNSAFE_OP: u8 = 0x0B;

/// Headroom for a reply buffer. Replies observed so far are at most 7 bytes
/// (opcode + 6), well within this.
pub const REPLY_MAX: usize = 16;

/// The number that `bytes` spell, lowest byte first.
pub open spec fn le_value(bytes: Seq<u8>) -> int
    decreases bytes.len(),
{
    if bytes.len() == 0 {
        0
    } else {
        bytes[0] + 256 * le_value(bytes.drop_first())
    }
}

/// The first four of `bytes`, or all of them if there are fewer.
pub open spec fn at_most_four(bytes: Seq<u8>) -> Seq<u8> {
    if bytes.len() < 4 {
        bytes
    } else {
        bytes.take(4)
    }
}

/// A reply of `read` bytes answers the query `opcode`: there is one, and it echoes
/// the opcode.
pub open spec fn answers(opcode: u8, read: int, reply: Seq<u8>) -> bool {
    read > 0 && reply[0] == opcode
}

/// The serial number in a reply of `read` bytes: up to four bytes behind the echoed
/// opcode.
pub open spec fn serial_in<E>(read: int, reply: Seq<u8>) -> Result<u32, Error<E>> {
    if answers(OP_SERIAL, read, reply) {
        Ok(le_value(at_most_four(reply.subrange(1, read))) as u32)
    } else {
        Err(Error::UnexpectedReply)
    }
}

/// The unique ID in a reply of `read` bytes: the six bytes behind the echoed
/// opcode.
pub open spec fn id_in<E>(read: int, reply: Seq<u8>) -> Result<Seq<u8>, Error<E>> {
    if answers(OP_ID, read, reply) && read >= 1 + ID_LEN {
        Ok(reply.subrange(1, 1 + ID_LEN))
    } else {
        Err(Error::UnexpectedReply)
    }
}

/// What became of a query.
pub enum Exchange<E> {
    /// The command could not be sent.
    NotSent(E),
    /// The command was sent, and the reply buffer came back as `filled`.
    Sent { filled: Seq<u8>, read: Result<usize, E> },
}

/// The log grew from `before` to `after` by the query `opcode`: the one-byte command,
/// and a read of the reply into a zeroed buffer once that was sent.
pub open spec fn queried<E>(
    before: Seq<Transfer<E>>,
    after: Seq<Transfer<E>>,
    opcode: u8,
    exchange: Exchange<E>,
) -> bool {
    match exchange {
        Exchange::NotSent(e) => after == before.push(
            Transfer::BulkOut { endpoint: CMD_ENDPOINT, data: seq![opcode], outcome: Err(e) },
        ),
        Exchange::Sent { filled, read } => {
            &&& filled.len() == REPLY_MAX
            &&& read matches Ok(n) ==> n <= REPLY_MAX
            &&& after == before.push(
                Transfer::BulkOut { endpoint: CMD_ENDPOINT, data: seq![opcode], outcome: Ok(()) },
            ).push(
                Transfer::BulkIn {
                    endpoint: STATUS_ENDPOINT,
                    offered: Seq::new(REPLY_MAX as nat, |i: int| 0u8),
                    filled,
                    read,
                },
            )
        },
    }
}

/// The answer of a serial number query that went as `exchange` says.
pub open spec fn serial_answer<E>(exchange: Exchange<E>) -> Result<u32, Error<E>> {
    match exchange {
        Exchange::NotSent(e) => Err(Error::Transport(e)),
        Exchange::Sent { filled, read } => match read {
            Ok(n) => serial_in::<E>(n as int, filled),
            Err(e) => Err(Error::Transport(e)),
        },
    }
}

/// The answer of a unique ID query that went as `exchange` says.
pub open spec fn id_answer<E>(exchange: Exchange<E>) -> Result<Seq<u8>, Error<E>> {
    match exchange {
        Exchange::NotSent(e) => Err(Error::Transport(e)),
        Exchange::Sent { filled, read } => match read {
            Ok(n) => id_in::<E>(n as int, filled),
            Err(e) => Err(Error::Transport(e)),
        },
    }
}

/// An ID given as an array is the one that `expected` gives as a sequence.
pub open spec fn same_id<E>(
    id: Result<[u8; ID_LEN], Error<E>>,
    expected: Result<Seq<u8>, Error<E>>,
) -> bool {
    match expected {
        Ok(bytes) => id matches Ok(array) && array@ == bytes,
        Err(e) => id == Err::<[u8; ID_LEN], Error<E>>(e),
    }
}

/// Read the device serial number.
///
/// Returns the value read (the sample unit reports `4095`). Sends [`OP_SERIAL`] on
/// the command endpoint and reads the echoed reply from the status endpoint.
pub fn read_serial<T: Transport>(transport: &mut T) -> (serial: Result<u32, Error<T::Error>>)
    ensures
        exists|exchange: Exchange<T::Error>|
            {
                &&& #[trigger] queried(
                    old(transport).log(),
                    final(transport).log(),
                    OP_SERIAL,
                    exchange,
                )
                &&& serial == serial_answer(exchange)
            },
{
    let mut reply = [0u8; REPLY_MAX];
    assert(reply@ =~= Seq::new(REPLY_MAX as nat, |i: int| 0u8));
    match query(transport, OP_SERIAL, &mut reply) {
        Ok(n) => {
            let ghost exchange = Exchange::<T::Error>::Sent { filled: reply@, read: Ok(n) };
            assert(queried(old(transport).log(), transport.log(), OP_SERIAL, exchange));
            serial_from_reply(n, &reply)
        },
        Err(e) => Err(e),
    }
}

/// Read the device's 48-bit unique ID (the sample unit reports `A93E5601ED8D`).
pub fn read_id<T: Transport>(transport: &mut T) -> (id: Result<[u8; ID_LEN], Error<T::Error>>)
    ensures
        exists|exchange: Exchange<T::Error>|
            {
                &&& #[trigger] queried(
                    old(transport).log(),
                    final(transport).log(),
                    OP_ID,
                    exchange,
                )
                &&& same_id(id, id_answer(exchange))
            },
{
    let mut reply = [0u8; REPLY_MAX];
    assert(reply@ =~= Seq::new(REPLY_MAX as nat, |i: int| 0u8));
    match query(transport, OP_ID, &mut reply) {
        Ok(n) => {
            let ghost exchange = Exchange::<T::Error>::Sent { filled: reply@, read: Ok(n) };
            assert(queried(old(transport).log(), transport.log(), OP_ID, exchange));
            id_from_reply(n, &reply)
        },
        Err(e) => Err(e),
    }
}

/// Send a single-byte query and capture its reply. Returns the number of bytes read.
fn query<T: Transport>(transport: &mut T, opcode: u8, reply: &mut [u8; REPLY_MAX]) -> (read: Result<
    usize,
    Error<T::Error>,
>)
    requires
        old(reply)@ == Seq::new(REPLY_MAX as nat, |i: int| 0u8),
    ensures
        match read {
            Ok(n) => queried(
                old(transport).log(),
                final(transport).log(),
                opcode,
                Exchange::Sent { filled: final(reply)@, read: Ok(n) },
            ),
            Err(Error::Transport(e)) => {
                ||| queried(
                    old(transport).log(),
                    final(transport).log(),
                    opcode,
                    Exchange::NotSent(e),
                )
                ||| queried(
                    old(transport).log(),
                    final(transport).log(),
                    opcode,
                    Exchange::Sent { filled: final(reply)@, read: Err(e) },
                )
            },
            Err(_) => false,
        },
{
    let command = [opcode];
    assert(command@ =~= seq![opcode]);
    let sent = transport.bulk_out(CMD_ENDPOINT, &command);
    match sent {
        Ok(()) => {
            assert(sent->Ok_0 == ());
        },
        Err(e) => return Err(Error::Transport(e)),
    }
    match transport.bulk_in(STATUS_ENDPOINT, reply) {
        Ok(n) => Ok(n),
        Err(e) => Err(Error::Transport(e)),
    }
}

/// Check that a reply of `read` bytes answers the query `opcode`.
///
/// Every reply echoes the opcode first; anything else is not our answer.
fn check_reply(opcode: u8, read: usize, reply: &[u8; REPLY_MAX]) -> (ours: bool)
    ensures
        ours == answers(opcode, read as int, reply@),
{
    read != 0 && reply[0] == opcode
}

/// Take the serial number out of the reply to [`OP_SERIAL`], of which `read` bytes
/// arrived.
pub fn serial_from_reply<E>(read: usize, reply: &[u8; REPLY_MAX]) -> (serial: Result<
    u32,
    Error<E>,
>)
    requires
        answers(OP_SERIAL, read as int, reply@) ==> read <= REPLY_MAX,
    ensures
        serial == serial_in::<E>(read as int, reply@),
{
    if !check_reply(OP_SERIAL, read, reply) {
        return Err(Error::UnexpectedReply);
    }
    Ok(le_u32(&reply[1..read]))
}

/// Take the unique ID out of the reply to [`OP_ID`], of which `read` bytes arrived.
pub fn id_from_reply<E>(read: usize, reply: &[u8; REPLY_MAX]) -> (id: Result<
    [u8; ID_LEN],
    Error<E>,
>)
    ensures
        same_id(id, id_in::<E>(read as int, reply@)),
{
    if !check_reply(OP_ID, read, reply) || read < 1 + ID_LEN {
        return Err(Error::UnexpectedReply);
    }
    let id = [reply[1], reply[2], reply[3], reply[4], reply[5], reply[6]];
    assert(id@ =~= reply@.subrange(1, 1 + ID_LEN));
    Ok(id)
}

/// Little-endian decode of up to four value bytes.
pub fn le_u32(bytes: &[u8]) -> (value: u32)
    ensures
        value == le_value(at_most_four(bytes@)),
{
    let count: usize = if bytes.len() < 4 {
        bytes.len()
    } else {
        4
    };
    let mut value: u32 = 0;
    let mut i: usize = count;
    let ghost used = at_most_four(bytes@);
    assert(used.skip(count as int) =~= Seq::<u8>::empty());
    while i > 0
        invariant
            i <= count <= 4,
            count <= bytes@.len(),
            used == at_most_four(bytes@),
            used.len() == count,
            value == le_value(used.skip(i as int)),
            i == 4 ==> value == 0,
            i == 3 ==> value < 0x100,
            i == 2 ==> value < 0x1_0000,
            i == 1 ==> value < 0x100_0000,
        decreases i,
    {
        assert(used.skip(i - 1).drop_first() =~= used.skip(i as int));
        i -= 1;
        value = value * 256 + bytes[i] as u32;
    }
    assert(used.skip(0) =~= used);
    value
}

/// The four bytes of `value`, lowest first.
pub open spec fn le_bytes(value: u32) -> Seq<u8> {
    seq![
        (value % 0x100) as u8,
        (value / 0x100 % 0x100) as u8,
        (value / 0x1_0000 % 0x100) as u8,
        (value / 0x100_0000) as u8,
    ]
}

/// Decoding undoes encoding: the four bytes of a number, lowest first, decode to it.
pub proof fn law_decoding_undoes_encoding(value: u32)
    ensures
        at_most_four(le_bytes(value)) == le_bytes(value),
        le_value(at_most_four(le_bytes(value))) == value,
{
    let four = le_bytes(value);
    assert(at_most_four(four) =~= four);
    reveal_with_fuel(le_value, 5);
    let tail = four.drop_first();
    assert(tail[0] == four[1]);
    assert(tail.drop_first()[0] == four[2]);
    assert(tail.drop_first().drop_first()[0] == four[3]);
    assert(value == value % 0x100 + 0x100 * (value / 0x100 % 0x100) + 0x1_0000 * (value / 0x1_0000
        % 0x100) + 0x100_0000 * (value / 0x100_0000));
}

/// Bytes behind the fourth do not matter to decoding, and bytes that are missing count as
/// zero: no bytes at all decode to 0.
pub proof fn law_decoding_takes_four_bytes(bytes: Seq<u8>, zeros: Seq<u8>)
    requires
        forall|i: int| 0 <= i < zeros.len() ==> zeros[i] == 0,
    ensures
        bytes.len() >= 4 ==> le_value(at_most_four(bytes)) == le_value(at_most_four(bytes.take(4))),
        le_value(at_most_four(bytes + zeros)) == le_value(at_most_four(bytes)),
        le_value(at_most_four(Seq::empty())) == 0,
{
    if bytes.len() >= 4 {
        assert(bytes.take(4).take(4) =~= bytes.take(4));
        assert((bytes + zeros).take(4) =~= bytes.take(4));
    } else {
        let used = at_most_four(bytes + zeros);
        assert(used =~= bytes + zeros.take(used.len() - bytes.len()));
        lemma_zeros_add_nothing(bytes, zeros.take(used.len() - bytes.len()));
    }
}

proof fn lemma_zeros_add_nothing(bytes: Seq<u8>, zeros: Seq<u8>)
    requires
        forall|i: int| 0 <= i < zeros.len() ==> zeros[i] == 0,
    ensures
        le_value(bytes + zeros) == le_value(bytes),
    decreases bytes.len() + zeros.len(),
{
    if bytes.len() > 0 {
        assert((bytes + zeros).drop_first() =~= bytes.drop_first() + zeros);
        lemma_zeros_add_nothing(bytes.drop_first(), zeros);
    } else if zeros.len() > 0 {
        assert((bytes + zeros).drop_first() =~= bytes + zeros.drop_first());
        lemma_zeros_add_nothing(bytes, zeros.drop_first());
    }
}

/// A serial number is read back as the device spelled it, whatever the reply holds
/// behind its four bytes.
pub proof fn law_serial_round_trips<E>(value: u32, rest: Seq<u8>, read: int)
    requires
        5 <= read <= 5 + rest.len(),
    ensures
        serial_in::<E>(read, seq![OP_SERIAL] + le_bytes(value) + rest) == Ok::<u32, Error<E>>(
            value,
        ),
{
    let reply = seq![OP_SERIAL] + le_bytes(value) + rest;
    let four = at_most_four(reply.subrange(1, read));
    assert(four =~= le_bytes(value));
    law_decoding_undoes_encoding(value);
}

/// Up to four bytes spell a number that fits 32 bits, so decoding loses nothing.
pub proof fn law_serial_fits(bytes: Seq<u8>)
    ensures
        0 <= le_value(at_most_four(bytes)) <= u32::MAX,
{
    reveal_with_fuel(le_value, 5);
}

/// Only a reply that echoes the opcode is taken for an answer.
pub proof fn law_only_an_echo_is_an_answer<E>(read: int, reply: Seq<u8>)
    ensures
        serial_in::<E>(read, reply) is Ok <==> read > 0 && reply[0] == OP_SERIAL,
        id_in::<E>(read, reply) is Ok <==> read > ID_LEN && reply[0] == OP_ID,
{
}

/// No bulk write of `plan` is the reserved command.
pub open spec fn spares_reserved_op(plan: Seq<Request>) -> bool {
    forall|i: int|
        0 <= i < plan.len() ==> match #[trigger] plan[i] {
            Request::Bulk { data, .. } => data.len() > 0 && data[0] != RESERVED_UNSAFE_OP,
            Request::Control { .. } => true,
        }
}

/// Nothing that this crate sends is the reserved command: no mode or filter command, no
/// chunk of a frame, no upload, and no query.
pub proof fn law_reserved_command_is_never_sent(
    mode: Mode,
    start_code: u8,
    endpoint: u8,
    frame: Seq<u8>,
    image: Seq<u8>,
)
    ensures
        spares_reserved_op(device::mode_plan(mode)),
        spares_reserved_op(receive::filtered_plan(start_code)),
        spares_reserved_op(dmx::send_plan(endpoint, frame)),
        spares_reserved_op(anchor::upload_plan(image)),
        OP_SERIAL != RESERVED_UNSAFE_OP,
        OP_ID != RESERVED_UNSAFE_OP,
{
    assert(spares_reserved_op(anchor::upload_plan(image))) by {
        anchor::lemma_writes_are_control(image, 0);
        let plan = anchor::upload_plan(image);
        let writes = anchor::image_writes(image, 0);
        assert forall|i: int| 0 <= i < plan.len() implies (#[trigger] plan[i]) is Control by {
            if 1 <= i <= writes.len() {
                assert(plan[i] == writes[i - 1]);
            }
        }
    }
    assert(spares_reserved_op(dmx::send_plan(endpoint, frame))) by {
        let plan = dmx::send_plan(endpoint, frame);
        assert forall|i: int| 0 <= i < plan.len() implies match #[trigger] plan[i] {
            Request::Bulk { data, .. } => data.len() > 0 && data[0] != RESERVED_UNSAFE_OP,
            Request::Control { .. } => true,
        } by {
            assert(plan[i]->Bulk_data == dmx::chunk_at(frame, i * dmx::MAX_CHUNK_DATA));
        }
    }
}

/// Decoding is positional: each of the first four bytes counts by its place, lowest
/// first, and a byte that is missing counts nothing.
pub proof fn law_decoding_is_positional(bytes: Seq<u8>)
    ensures
        le_value(at_most_four(bytes)) == (if bytes.len() > 0 {
            bytes[0] as int
        } else {
            0
        }) + 0x100 * (if bytes.len() > 1 {
            bytes[1] as int
        } else {
            0
        }) + 0x1_0000 * (if bytes.len() > 2 {
            bytes[2] as int
        } else {
            0
        }) + 0x100_0000 * (if bytes.len() > 3 {
            bytes[3] as int
        } else {
            0
        }),
{
    let used = at_most_four(bytes);
    reveal_with_fuel(le_value, 5);
    if used.len() > 1 {
        assert(used.drop_first()[0] == bytes[1]);
    }
    if used.len() > 2 {
        assert(used.drop_first().drop_first()[0] == bytes[2]);
    }
    if used.len() > 3 {
        assert(used.drop_first().drop_first().drop_first()[0] == bytes[3]);
    }
}

/// The serial number in a reply of any length is the value of all its value bytes, up to
/// four of them: no byte that arrived is left out, and none that did not counts.
pub proof fn law_serial_is_every_value_byte<E>(read: int, reply: Seq<u8>)
    requires
        0 <= read <= reply.len(),
    ensures
        read > 0 && reply[0] == 0x09 ==> serial_in::<E>(read, reply) == Ok::<u32, Error<E>>(
            ((if read > 1 {
                reply[1] as int
            } else {
                0
            }) + 0x100 * (if read > 2 {
                reply[2] as int
            } else {
                0
            }) + 0x1_0000 * (if read > 3 {
                reply[3] as int
            } else {
                0
            }) + 0x100_0000 * (if read > 4 {
                reply[4] as int
            } else {
                0
            })) as u32,
        ),
        read == 0 || reply[0] != 0x09 ==> serial_in::<E>(read, reply) == Err::<u32, Error<E>>(
            Error::UnexpectedReply,
        ),
{
    if read > 0 {
        law_decoding_is_positional(reply.subrange(1, read));
    }
}

/// A reply that does not start with the opcode has no serial number and no ID, however
/// long it is said to be.
pub proof fn law_other_replies_are_refused<E>(read: int, reply: Seq<u8>)
    ensures
        reply[0] != 0x09 ==> serial_in::<E>(read, reply) == Err::<u32, Error<E>>(
            Error::UnexpectedReply,
        ),
        reply[0] != 0x23 || read < 7 ==> id_in::<E>(read, reply) == Err::<Seq<u8>, Error<E>>(
            Error::UnexpectedReply,
        ),
{
}

/// A unique ID is read back as the device spelled it, byte for byte, whatever the reply
/// holds behind its six bytes. So no two devices are taken for one.
pub proof fn law_id_round_trips<E>(id: Seq<u8>, rest: Seq<u8>, read: int)
    requires
        id.len() == 6,
        7 <= read <= 7 + rest.len(),
    ensures
        id_in::<E>(read, seq![0x23u8] + id + rest) == Ok::<Seq<u8>, Error<E>>(id),
{
    let reply = seq![0x23u8] + id + rest;
    assert(reply.subrange(1, 7) =~= id);
}

/// What a query puts on the wire: its opcode alone to endpoint `0x02`, and if that was
/// sent, one read of endpoint `0x82` into sixteen zeroed bytes.
pub proof fn law_query_is_logged_as_made<E>(
    before: Seq<Transfer<E>>,
    after: Seq<Transfer<E>>,
    opcode: u8,
    exchange: Exchange<E>,
)
    requires
        queried(before, after, opcode, exchange),
    ensures
        OP_SERIAL == 0x09,
        OP_ID == 0x23,
        RESERVED_UNSAFE_OP == 0x0B,
        forall|i: int| 0 <= i < before.len() ==> #[trigger] after[i] == before[i],
        exchange matches Exchange::NotSent(e) ==> {
            &&& after.len() == before.len() + 1
            &&& after.last() == (Transfer::BulkOut {
                endpoint: 0x02,
                data: seq![opcode],
                outcome: Err::<(), E>(e),
            })
        },
        exchange matches Exchange::Sent { filled, read } ==> {
            &&& after.len() == before.len() + 2
            &&& after[before.len() as int] == (Transfer::BulkOut {
                endpoint: 0x02,
                data: seq![opcode],
                outcome: Ok::<(), E>(()),
            })
            &&& after.last() == (Transfer::BulkIn {
                endpoint: 0x82,
                offered: Seq::new(16, |i: int| 0u8),
                filled,
                read,
            })
            &&& filled.len() == 16
            &&& read matches Ok(n) ==> n <= 16
        },
{
}

/// The answer of a query is what its reply says: a failed transfer is reported as the
/// transport's failure, and a reply is taken for what arrived of it.
pub proof fn law_answer_is_what_the_reply_says<E>(exchange: Exchange<E>)
    ensures
        exchange matches Exchange::NotSent(e) ==> {
            &&& serial_answer(exchange) == Err::<u32, Error<E>>(Error::Transport(e))
            &&& id_answer(exchange) == Err::<Seq<u8>, Error<E>>(Error::Transport(e))
        },
        exchange matches Exchange::Sent { filled, read } ==> match read {
            Ok(n) => {
                &&& serial_answer(exchange) == serial_in::<E>(n as int, filled)
                &&& id_answer(exchange) == id_in::<E>(n as int, filled)
            },
            Err(e) => {
                &&& serial_answer(exchange) == Err::<u32, Error<E>>(Error::Transport(e))
                &&& id_answer(exchange) == Err::<Seq<u8>, Error<E>>(Error::Transport(e))
            },
        },
{
}

/// An ID given as an array has the six bytes of the one it stands for, and a failure is
/// passed on as it is.
pub proof fn law_id_array_is_the_id<E>(
    id: Result<[u8; ID_LEN], Error<E>>,
    expected: Result<Seq<u8>, Error<E>>,
)
    ensures
        ID_LEN == 6,
        same_id(id, expected) <==> match expected {
            Ok(bytes) => id is Ok && id->Ok_0@ == bytes,
            Err(e) => id is Err && id->Err_0 == e,
        },
{
}

} // verus!
