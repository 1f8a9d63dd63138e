//! EZ-USB "Anchor" RAM download for the AN2131.
//!
//! The bootloader accepts a vendor request that writes bytes straight into 8051
//! RAM, addressed by `wValue`. Uploading the image is therefore just a reset,
//! a run of such writes, and a release: no handshake or authentication is
//! involved.

use vstd::prelude::*;

use crate::error::Error;
use crate::firmware;
use crate::firmware::{
    HexError, HexReader, RecordKind, Written, MAX_RECORD_PAYLOAD, RECORD_MARK,
};
use crate::transport;
use crate::transport::{Request, Transfer, Transport};

verus! {

/// Vendor request that writes bytes into 8051 RAM (`wValue` = target address).
pub const ANCHOR_LOAD: u8 = 0xA0;

/// `bmRequestType` for a host-to-device vendor transfer.
pub const VENDOR_OUT: u8 = 0x40;

/// AN2131 CPU control/status register; bit 0 holds the 8051 in reset.
///
/// Bracketing the download in reset is what makes it safe: the CPU is stopped
/// before its RAM is rewritten and only started once the whole image is in place.
pub const CPUCS: u16 = 0x7F92;

/// Value for [`CPUCS`] that holds the CPU in reset.
pub const CPU_HOLD: u8 = 0x01;

/// Value for [`CPUCS`] that lets the CPU run.
pub const CPU_RUN: u8 = 0x00;

/// The request that writes `data` into 8051 RAM at `address`.
pub open spec fn ram_write(address: u16, data: Seq<u8>) -> Request {
    Request::Control { request_type: VENDOR_OUT, request: ANCHOR_LOAD, value: address, index: 0, data }
}

/// The request that holds the CPU in reset.
pub open spec fn hold_cpu() -> Request {
    ram_write(CPUCS, seq![CPU_HOLD])
}

/// The request that releases the CPU.
pub open spec fn release_cpu() -> Request {
    ram_write(CPUCS, seq![CPU_RUN])
}

/// One write for each data record from `pos` on, in order, up to the end-of-file
/// record, the first record that cannot be read, or the end of the image. (Reading a
/// record always moves on within the image; see [`firmware::law_reading_advances`].)
pub open spec fn image_writes(image: Seq<u8>, pos: int) -> Seq<Request>
    decreases image.len() - pos,
{
    let mark = firmware::next_mark(image, pos);
    let reading = firmware::read_record(image, mark, MAX_RECORD_PAYLOAD as int);
    if 0 <= pos <= mark < image.len() && mark < reading.next <= image.len() {
        match reading.outcome {
            Ok(record) => match record.kind {
                RecordKind::Data => seq![ram_write(record.address, reading.payload)]
                    + image_writes(image, reading.next),
                RecordKind::Eof => Seq::empty(),
                RecordKind::Other(_) => image_writes(image, reading.next),
            },
            Err(_) => Seq::empty(),
        }
    } else {
        Seq::empty()
    }
}

/// What is wrong with the first record from `pos` on that cannot be read, if one
/// comes before the end-of-file record and the end of the image.
pub open spec fn image_fault(image: Seq<u8>, pos: int) -> Option<HexError>
    decreases image.len() - pos,
{
    let mark = firmware::next_mark(image, pos);
    let reading = firmware::read_record(image, mark, MAX_RECORD_PAYLOAD as int);
    if 0 <= pos <= mark < image.len() && mark < reading.next <= image.len() {
        match reading.outcome {
            Ok(record) => match record.kind {
                RecordKind::Eof => None,
                _ => image_fault(image, reading.next),
            },
            Err(e) => Some(e),
        }
    } else {
        None
    }
}

/// The writes from `pos` on, and after them the release of the CPU if the whole
/// rest of the image can be read.
pub open spec fn rest_of_upload(image: Seq<u8>, pos: int) -> Seq<Request> {
    if image_fault(image, pos) is None {
        image_writes(image, pos).push(release_cpu())
    } else {
        image_writes(image, pos)
    }
}

/// The requests of an upload: hold the CPU, write the data records, release the
/// CPU. An image with a record that cannot be read ends the upload there, with
/// the CPU still held.
pub open spec fn upload_plan(image: Seq<u8>) -> Seq<Request> {
    seq![hold_cpu()] + rest_of_upload(image, 0)
}

/// What an upload does next.
#[derive(Debug, Clone, Copy, PartialEq, Eq, Structural)]
pub enum UploadStep {
    /// Write the first `len` bytes of the payload buffer into RAM at `address`.
    Write {
        /// Target address, the `wValue` of the write request.
        address: u16,
        /// Number of bytes to write.
        len: u8,
    },
    /// The image is in place and the CPU has been released.
    Done,
    /// A record of the image cannot be read; the CPU is left in reset.
    Fault(HexError),
}

/// How far an upload has come.
enum Stage {
    Reset,
    Streaming,
    Released,
    Faulted(HexError),
}

/// The course of an upload, one RAM write at a time, without the transfers.
///
/// The owner performs each [`UploadStep::Write`] as an [`ANCHOR_LOAD`] request and
/// asks for the next step once it has succeeded.
pub struct Upload<'a> {
    reader: HexReader<'a>,
    stage: Stage,
}

impl<'a> Upload<'a> {
    /// The requests that are still to be made.
    pub closed spec fn pending(&self) -> Seq<Request> {
        match self.stage {
            Stage::Reset => seq![hold_cpu()] + rest_of_upload(
                self.reader.image(),
                self.reader.position(),
            ),
            Stage::Streaming => rest_of_upload(self.reader.image(), self.reader.position()),
            Stage::Released => Seq::empty(),
            Stage::Faulted(_) => Seq::empty(),
        }
    }

    /// What is wrong with the image, if it has a record that cannot be read.
    pub closed spec fn fault(&self) -> Option<HexError> {
        match self.stage {
            Stage::Reset => image_fault(self.reader.image(), self.reader.position()),
            Stage::Streaming => image_fault(self.reader.image(), self.reader.position()),
            Stage::Released => None,
            Stage::Faulted(e) => Some(e),
        }
    }

    /// Begin the upload of an Intel HEX `firmware` image.
    pub fn new(firmware: &'a [u8]) -> (upload: Self)
        ensures
            upload.pending() == upload_plan(firmware@),
            upload.fault() == image_fault(firmware@, 0),
    {
        Upload { reader: HexReader::new(firmware), stage: Stage::Reset }
    }

    /// The next step of the upload; the bytes of a write are put at the front of
    /// `payload`.
    pub fn next(&mut self, payload: &mut [u8; MAX_RECORD_PAYLOAD]) -> (step: UploadStep)
        ensures
            final(self).fault() == old(self).fault(),
            match step {
                UploadStep::Write { address, len } => {
                    &&& old(self).pending().len() > 0
                    &&& old(self).pending()[0] == ram_write(address, final(payload)@.take(len as int))
                    &&& final(self).pending() == old(self).pending().drop_first()
                },
                UploadStep::Done => {
                    &&& old(self).pending().len() == 0
                    &&& final(self).pending().len() == 0
                    &&& old(self).fault() is None
                },
                UploadStep::Fault(e) => {
                    &&& old(self).pending().len() == 0
                    &&& final(self).pending().len() == 0
                    &&& old(self).fault() == Some(e)
                },
            },
    {
        match self.stage {
            Stage::Reset => {
                payload[0] = CPU_HOLD;
                self.stage = Stage::Streaming;
                assert(payload@.take(1) =~= seq![CPU_HOLD]);
                assert(old(self).pending().drop_first() =~= self.pending());
                return UploadStep::Write { address: CPUCS, len: 1 };
            },
            Stage::Streaming => {},
            Stage::Released => return UploadStep::Done,
            Stage::Faulted(e) => return UploadStep::Fault(e),
        }
        let ghost image = self.reader.image();
        loop
            invariant
                self.stage is Streaming,
                self.reader.image() == image,
                self.pending() == old(self).pending(),
                self.fault() == old(self).fault(),
            decreases image.len() - self.reader.position(),
        {
            let ghost pos = self.reader.position();
            let ghost mark = firmware::next_mark(image, pos);
            let ghost reading = firmware::read_record(image, mark, MAX_RECORD_PAYLOAD as int);
            let ghost buffer = payload@;
            proof {
                self.reader.lemma_position();
                if pos <= image.len() {
                    firmware::law_next_mark_is_first(image, pos);
                }
                if mark < image.len() {
                    firmware::law_reading_advances(image, mark, MAX_RECORD_PAYLOAD as int);
                }
            }
            match self.reader.next(payload) {
                None => {
                    payload[0] = CPU_RUN;
                    self.stage = Stage::Released;
                    assert(payload@.take(1) =~= seq![CPU_RUN]);
                    assert(old(self).pending() =~= seq![release_cpu()]);
                    assert(old(self).pending().drop_first() =~= self.pending());
                    return UploadStep::Write { address: CPUCS, len: 1 };
                },
                Some(Err(e)) => {
                    self.stage = Stage::Faulted(e);
                    return UploadStep::Fault(e);
                },
                Some(Ok(record)) => match record.kind {
                    RecordKind::Data => {
                        assert(payload@.take(record.len as int) =~= reading.payload);
                        assert(old(self).pending() =~= seq![
                            ram_write(record.address, reading.payload),
                        ] + self.pending());
                        assert(old(self).pending().drop_first() =~= self.pending());
                        return UploadStep::Write { address: record.address, len: record.len };
                    },
                    RecordKind::Eof => {
                        payload[0] = CPU_RUN;
                        self.stage = Stage::Released;
                        assert(payload@.take(1) =~= seq![CPU_RUN]);
                        assert(old(self).pending() =~= seq![release_cpu()]);
                        assert(old(self).pending().drop_first() =~= self.pending());
                        return UploadStep::Write { address: CPUCS, len: 1 };
                    },
                    // The Mk3 image is a flat sub-64K load, so extended-address records
                    // are not expected; tolerate rather than reject them.
                    RecordKind::Other(_) => {},
                },
            }
        }
    }
}

/// Upload an Intel HEX `firmware` image into an unloaded widget and start the CPU.
///
/// On success the device drops off the bus and re-enumerates with
/// [`crate::identity::PID_LOADED`]. Waiting for that re-enumeration is the
/// caller's responsibility, because how an attach event surfaces depends on the
/// host stack.
pub fn upload<T: Transport>(transport: &mut T, firmware: &[u8]) -> (result: Result<
    (),
    Error<T::Error>,
>)
    ensures
        match result {
            Ok(()) => {
                &&& image_fault(firmware@, 0) is None
                &&& transport::performed(
                    old(transport).log(),
                    final(transport).log(),
                    upload_plan(firmware@),
                    None::<T::Error>,
                )
            },
            Err(Error::Transport(e)) => transport::performed(
                old(transport).log(),
                final(transport).log(),
                upload_plan(firmware@),
                Some(e),
            ),
            Err(Error::Hex(e)) => {
                &&& image_fault(firmware@, 0) == Some(e)
                &&& transport::performed(
                    old(transport).log(),
                    final(transport).log(),
                    upload_plan(firmware@),
                    None::<T::Error>,
                )
            },
            Err(_) => false,
        },
{
    let mut job = Upload::new(firmware);
    let mut payload = [0u8; MAX_RECORD_PAYLOAD];
    let ghost before = transport.log();
    let ghost plan = upload_plan(firmware@);
    let ghost mut done: int = 0;
    assert(plan.skip(0) =~= plan);
    assert(before.skip(before.len() as int).len() == 0);
    assert(before.take(before.len() as int) =~= before);
    loop
        invariant
            before == old(transport).log(),
            plan == upload_plan(firmware@),
            0 <= done <= plan.len(),
            job.pending() == plan.skip(done),
            job.fault() == image_fault(firmware@, 0),
            transport::performed(before, transport.log(), plan.take(done), None::<T::Error>),
        decreases plan.len() - done,
    {
        match job.next(&mut payload) {
            UploadStep::Write { address, len } => {
                let ghost middle = transport.log();
                let outcome = transport.control_out(
                    VENDOR_OUT,
                    ANCHOR_LOAD,
                    address,
                    0,
                    &payload[0..len as usize],
                );
                proof {
                    transport::lemma_performed_step(before, middle, done, plan, outcome);
                    assert(plan.skip(done).drop_first() =~= plan.skip(done + 1));
                    done = done + 1;
                }
                match outcome {
                    Ok(()) => {},
                    Err(e) => return Err(Error::Transport(e)),
                }
            },
            UploadStep::Done => {
                assert(plan.take(done) =~= plan);
                return Ok(());
            },
            UploadStep::Fault(e) => {
                assert(plan.take(done) =~= plan);
                return Err(Error::Hex(e));
            },
        }
    }
}

/// An upload holds the CPU before anything else, and what comes between that and
/// the release is the image's data records. The release comes at the very end, and
/// only if every record could be read.
pub proof fn law_upload_is_bracketed(image: Seq<u8>)
    ensures
        upload_plan(image)[0] == hold_cpu(),
        image_fault(image, 0) is None ==> upload_plan(image) == seq![hold_cpu()] + image_writes(
            image,
            0,
        ) + seq![release_cpu()],
        image_fault(image, 0) is Some ==> upload_plan(image) == seq![hold_cpu()] + image_writes(
            image,
            0,
        ),
{
    if image_fault(image, 0) is None {
        assert(upload_plan(image) =~= seq![hold_cpu()] + image_writes(image, 0) + seq![
            release_cpu(),
        ]);
    }
}

/// The CPU is released once, at the very end, and only if every record could be
/// read: for an image that does not itself load the release value into the CPU
/// control register.
pub proof fn law_cpu_is_released_only_at_the_end(image: Seq<u8>, i: int)
    requires
        !image_writes(image, 0).contains(release_cpu()),
        0 <= i < upload_plan(image).len(),
    ensures
        upload_plan(image)[i] == release_cpu() <==> image_fault(image, 0) is None && i
            == upload_plan(image).len() - 1,
{
    let writes = image_writes(image, 0);
    assert(hold_cpu() != release_cpu()) by {
        assert(seq![CPU_HOLD][0] != seq![CPU_RUN][0]);
    }
    if 1 <= i <= writes.len() {
        assert(upload_plan(image)[i] == writes[i - 1]);
    }
}

/// Every image write is the payload and address of a data record of the image, whose
/// bytes sum to a multiple of 256: nothing reaches RAM that was not checksummed.
pub proof fn law_only_checksummed_data_is_written(image: Seq<u8>, pos: int, i: int)
    requires
        0 <= i < image_writes(image, pos).len(),
    ensures
        exists|mark: int|
            {
                let reading = #[trigger] firmware::read_record(
                    image,
                    mark,
                    MAX_RECORD_PAYLOAD as int,
                );
                &&& pos <= mark < image.len()
                &&& image[mark] == RECORD_MARK
                &&& reading.outcome matches Ok(record)
                &&& record.kind == RecordKind::Data
                &&& image_writes(image, pos)[i] == ram_write(record.address, reading.payload)
                &&& firmware::byte_sum(firmware::bytes_at(image, mark + 1, record.len + 5)) % 256
                    == 0
            },
    decreases image.len() - pos,
{
    let mark = firmware::next_mark(image, pos);
    let reading = firmware::read_record(image, mark, MAX_RECORD_PAYLOAD as int);
    firmware::law_next_mark_is_first(image, pos);
    firmware::law_accepted_record_is_checksummed(image, mark, MAX_RECORD_PAYLOAD as int);
    let record = reading.outcome->Ok_0;
    match record.kind {
        RecordKind::Data => {
            if i > 0 {
                law_only_checksummed_data_is_written(image, reading.next, i - 1);
            }
        },
        _ => {
            law_only_checksummed_data_is_written(image, reading.next, i);
        },
    }
}

/// Every image write is a control transfer.
pub proof fn lemma_writes_are_control(image: Seq<u8>, pos: int)
    ensures
        forall|i: int|
            0 <= i < image_writes(image, pos).len() ==> (#[trigger] image_writes(
                image,
                pos,
            )[i]) is Control,
    decreases image.len() - pos,
{
    let mark = firmware::next_mark(image, pos);
    let reading = firmware::read_record(image, mark, MAX_RECORD_PAYLOAD as int);
    if 0 <= pos <= mark < image.len() && mark < reading.next <= image.len() && reading.outcome is Ok {
        lemma_writes_are_control(image, reading.next);
    }
}

/// The upload's own payload buffer is never the reason that an image is refused.
pub proof fn law_fault_lies_in_the_image(image: Seq<u8>, pos: int)
    ensures
        image_fault(image, pos) != Some(HexError::BufferTooSmall),
    decreases image.len() - pos,
{
    let mark = firmware::next_mark(image, pos);
    let reading = firmware::read_record(image, mark, MAX_RECORD_PAYLOAD as int);
    firmware::law_largest_buffer_always_fits(image, mark, MAX_RECORD_PAYLOAD as int);
    if 0 <= pos <= mark < image.len() && mark < reading.next <= image.len() && reading.outcome is Ok {
        law_fault_lies_in_the_image(image, reading.next);
    }
}

/// Reading from `pos` on comes to an end-of-file record.
pub open spec fn reaches_eof(image: Seq<u8>, pos: int) -> bool
    decreases image.len() - pos,
{
    let mark = firmware::next_mark(image, pos);
    let reading = firmware::read_record(image, mark, MAX_RECORD_PAYLOAD as int);
    &&& 0 <= pos <= mark < image.len()
    &&& mark < reading.next <= image.len()
    &&& reading.outcome matches Ok(record)
    &&& record.kind == RecordKind::Eof || reaches_eof(image, reading.next)
}

/// What follows the end-of-file record is not uploaded, and cannot spoil the
/// upload.
pub proof fn law_nothing_after_eof_is_uploaded(image: Seq<u8>, after: Seq<u8>, pos: int)
    requires
        reaches_eof(image, pos),
    ensures
        image_fault(image, pos) is None,
        image_writes(image + after, pos) == image_writes(image, pos),
        image_fault(image + after, pos) == image_fault(image, pos),
    decreases image.len() - pos,
{
    let mark = firmware::next_mark(image, pos);
    let room = MAX_RECORD_PAYLOAD as int;
    let reading = firmware::read_record(image, mark, room);
    lemma_mark_append(image, after, pos);
    firmware::law_reading_ignores_what_follows(image, after, mark, room);
    if reading.outcome->Ok_0.kind != RecordKind::Eof {
        law_nothing_after_eof_is_uploaded(image, after, reading.next);
    }
}

/// One of `records` is an end-of-file record.
pub open spec fn has_eof(records: Seq<Written>) -> bool {
    exists|i: int| 0 <= i < records.len() && (#[trigger] records[i]).code == 1
}

/// One RAM write for each data record of `records`, in order, up to the first
/// end-of-file record.
pub open spec fn loads(records: Seq<Written>) -> Seq<Request>
    decreases records.len(),
{
    if records.len() == 0 || records[0].code == 1 {
        Seq::empty()
    } else if records[0].code == 0 {
        seq![ram_write(records[0].address, records[0].payload)] + loads(records.drop_first())
    } else {
        loads(records.drop_first())
    }
}

/// An upload puts into RAM what was written into the image: for an image of records in
/// Intel HEX form it holds the CPU, writes each data record's payload at its address, in
/// order and up to the end-of-file record, and releases the CPU. What stands behind the
/// records does not matter if one of them is an end-of-file record, and otherwise as
/// long as it holds no record mark.
pub proof fn law_upload_writes_what_the_image_holds(records: Seq<Written>, tail: Seq<u8>)
    requires
        forall|i: int| 0 <= i < records.len() ==> (#[trigger] records[i]).wf(),
        has_eof(records) || !tail.contains(RECORD_MARK),
    ensures
        image_fault(firmware::image_of(records, tail), 0) is None,
        upload_plan(firmware::image_of(records, tail)) == seq![hold_cpu()] + loads(records) + seq![
            release_cpu(),
        ],
{
    lemma_image_of(records, tail);
    law_upload_is_bracketed(firmware::image_of(records, tail));
}

proof fn lemma_image_of(records: Seq<Written>, tail: Seq<u8>)
    requires
        forall|i: int| 0 <= i < records.len() ==> (#[trigger] records[i]).wf(),
        has_eof(records) || !tail.contains(RECORD_MARK),
    ensures
        image_fault(firmware::image_of(records, tail), 0) is None,
        image_writes(firmware::image_of(records, tail), 0) == loads(records),
    decreases records.len(),
{
    let image = firmware::image_of(records, tail);
    if records.len() == 0 {
        firmware::law_next_mark_is_first(tail, 0);
        let mark = firmware::next_mark(tail, 0);
        if mark < tail.len() {
            assert(tail.contains(tail[mark]));
        }
        assert(image_writes(image, 0) =~= loads(records));
    } else {
        let rest = records.drop_first();
        lemma_leading_record(records[0], firmware::image_of(rest, tail));
        if records[0].code != 1 {
            assert forall|i: int| 0 <= i < rest.len() implies (#[trigger] rest[i]).wf() by {
                assert(rest[i] == records[i + 1]);
            }
            if has_eof(records) {
                let i = choose|i: int| 0 <= i < records.len() && (#[trigger] records[i]).code == 1;
                assert(rest[i - 1].code == 1);
            }
            lemma_image_of(rest, tail);
        }
    }
}

/// The course of an upload that starts with a record: a data record is written and
/// the upload goes on with what follows, an end-of-file record ends it, and any other
/// is passed over.
proof fn lemma_leading_record(written: Written, tail: Seq<u8>)
    requires
        written.wf(),
    ensures
        ({
            let image = written.form() + tail;
            if written.code == 1 {
                &&& image_writes(image, 0) == Seq::<Request>::empty()
                &&& image_fault(image, 0) is None
            } else if written.code == 0 {
                &&& image_writes(image, 0) == seq![
                    ram_write(written.address, written.payload),
                ] + image_writes(tail, 0)
                &&& image_fault(image, 0) == image_fault(tail, 0)
            } else {
                &&& image_writes(image, 0) == image_writes(tail, 0)
                &&& image_fault(image, 0) == image_fault(tail, 0)
            }
        }),
{
    firmware::law_record_reads_back(written, tail, MAX_RECORD_PAYLOAD as int);
    lemma_upload_is_local(written.form(), tail, 0);
}

/// The course of an upload does not depend on what the image holds ahead of the
/// place that reading goes on from.
proof fn lemma_upload_is_local(before: Seq<u8>, data: Seq<u8>, pos: int)
    requires
        0 <= pos <= data.len(),
    ensures
        image_writes(before + data, before.len() + pos) == image_writes(data, pos),
        image_fault(before + data, before.len() + pos) == image_fault(data, pos),
    decreases data.len() - pos,
{
    let mark = firmware::next_mark(data, pos);
    let room = MAX_RECORD_PAYLOAD as int;
    firmware::law_next_mark_is_first(data, pos);
    firmware::law_next_mark_is_local(before, data, pos);
    if mark < data.len() {
        let reading = firmware::read_record(data, mark, room);
        firmware::law_reading_is_local(before, data, mark, room);
        firmware::law_reading_advances(data, mark, room);
        lemma_upload_is_local(before, data, reading.next);
    }
}

proof fn lemma_mark_append(image: Seq<u8>, after: Seq<u8>, pos: int)
    requires
        0 <= pos,
        firmware::next_mark(image, pos) < image.len(),
    ensures
        firmware::next_mark(image + after, pos) == firmware::next_mark(image, pos),
    decreases image.len() - pos,
{
    if pos < image.len() && image[pos] != RECORD_MARK {
        lemma_mark_append(image, after, pos + 1);
    }
}

/// Writing to RAM is the vendor request `0xA0` with the address as its value and all of
/// the data, and nothing else, as its data stage. The CPU is held by writing 1 to the
/// register at `0x7F92`, and released by writing 0.
pub proof fn law_ram_write_carries_all_its_data(address: u16, data: Seq<u8>)
    ensures
        ram_write(address, data) == (Request::Control {
            request_type: 0x40,
            request: 0xA0,
            value: address,
            index: 0,
            data,
        }),
        hold_cpu() == (Request::Control {
            request_type: 0x40,
            request: 0xA0,
            value: 0x7F92,
            index: 0,
            data: seq![1u8],
        }),
        release_cpu() == (Request::Control {
            request_type: 0x40,
            request: 0xA0,
            value: 0x7F92,
            index: 0,
            data: seq![0u8],
        }),
{
}

/// An image is uploaded record by record, whatever it holds. From any place in it: a
/// data record is written at its address with its whole payload, and the upload goes on
/// behind it; a record of another type is passed over; an end-of-file record, or the
/// lack of any further record, ends the upload well; one that cannot be read ends it
/// with that fault.
pub proof fn law_image_is_uploaded_record_by_record(image: Seq<u8>, pos: int)
    requires
        0 <= pos <= image.len(),
    ensures
        ({
            let mark = firmware::next_mark(image, pos);
            let reading = firmware::read_record(image, mark, 255);
            let writes = image_writes(image, pos);
            let fault = image_fault(image, pos);
            if mark == image.len() {
                &&& writes.len() == 0
                &&& fault is None
            } else {
                match reading.outcome {
                    Err(e) => {
                        &&& writes.len() == 0
                        &&& fault == Some(e)
                    },
                    Ok(record) => match record.kind {
                        RecordKind::Data => {
                            &&& writes.len() == 1 + image_writes(image, reading.next).len()
                            &&& writes[0] == (Request::Control {
                                request_type: 0x40,
                                request: 0xA0,
                                value: record.address,
                                index: 0,
                                data: reading.payload,
                            })
                            &&& writes.skip(1) == image_writes(image, reading.next)
                            &&& fault == image_fault(image, reading.next)
                        },
                        RecordKind::Eof => {
                            &&& writes.len() == 0
                            &&& fault is None
                        },
                        RecordKind::Other(_) => {
                            &&& writes == image_writes(image, reading.next)
                            &&& fault == image_fault(image, reading.next)
                        },
                    },
                }
            }
        }),
{
    let mark = firmware::next_mark(image, pos);
    firmware::law_next_mark_is_first(image, pos);
    if mark < image.len() {
        firmware::law_reading_advances(image, mark, 255);
        let reading = firmware::read_record(image, mark, 255);
        assert((seq![ram_write(reading.outcome->Ok_0.address, reading.payload)] + image_writes(
            image,
            reading.next,
        )).skip(1) =~= image_writes(image, reading.next));
    }
}

/// The requests of an upload, for every image: the CPU is held first, the image's writes
/// follow, and the CPU is released at the end exactly if the image has no fault.
pub proof fn law_upload_holds_writes_and_releases(image: Seq<u8>)
    ensures
        ({
            let plan = upload_plan(image);
            let writes = image_writes(image, 0);
            &&& plan[0] == (Request::Control {
                request_type: 0x40,
                request: 0xA0,
                value: 0x7F92,
                index: 0,
                data: seq![1u8],
            })
            &&& forall|i: int| 0 <= i < writes.len() ==> plan[1 + i] == #[trigger] writes[i]
            &&& image_fault(image, 0) is None ==> {
                &&& plan.len() == writes.len() + 2
                &&& plan.last() == (Request::Control {
                    request_type: 0x40,
                    request: 0xA0,
                    value: 0x7F92,
                    index: 0,
                    data: seq![0u8],
                })
            }
            &&& image_fault(image, 0) is Some ==> plan.len() == writes.len() + 1
        }),
{
}

/// What is loaded of a run of records: each data record's whole payload at its address,
/// none of another type, and nothing from the first end-of-file record on.
pub proof fn law_loads_are_the_data_records(first: Written, rest: Seq<Written>)
    ensures
        loads(Seq::empty()).len() == 0,
        first.code == 0 ==> loads(seq![first] + rest) == seq![
            Request::Control {
                request_type: 0x40,
                request: 0xA0,
                value: first.address,
                index: 0,
                data: first.payload,
            },
        ] + loads(rest),
        first.code == 1 ==> loads(seq![first] + rest).len() == 0,
        first.code > 1 ==> loads(seq![first] + rest) == loads(rest),
        first.code == 1 || has_eof(rest) ==> has_eof(seq![first] + rest),
{
    let all = seq![first] + rest;
    assert(all.drop_first() =~= rest);
    assert(all[0] == first);
    if has_eof(rest) {
        let i = choose|i: int| 0 <= i < rest.len() && (#[trigger] rest[i]).code == 1;
        assert(all[i + 1].code == 1);
    }
}

/// The log of a successful upload of an image of data records: the CPU is held, every
/// record's whole payload is written at its address, one transfer for each and in their
/// order, and the CPU is released. Nothing else is transferred.
pub proof fn law_uploaded_image_is_logged_whole<E>(
    before: Seq<Transfer<E>>,
    after: Seq<Transfer<E>>,
    records: Seq<Written>,
    tail: Seq<u8>,
    i: int,
)
    requires
        forall|k: int| 0 <= k < records.len() ==> (#[trigger] records[k]).wf(),
        forall|k: int| 0 <= k < records.len() ==> (#[trigger] records[k]).code == 0,
        !tail.contains(0x3A),
        transport::performed(
            before,
            after,
            upload_plan(firmware::image_of(records, tail)),
            None::<E>,
        ),
        0 <= i < records.len(),
    ensures
        after.len() == before.len() + records.len() + 2,
        forall|k: int| 0 <= k < before.len() ==> #[trigger] after[k] == before[k],
        after[before.len() as int] == (Transfer::ControlOut {
            request_type: 0x40,
            request: 0xA0,
            value: 0x7F92,
            index: 0,
            data: seq![1u8],
            outcome: Ok::<(), E>(()),
        }),
        after[before.len() + 1 + i] == (Transfer::ControlOut {
            request_type: 0x40,
            request: 0xA0,
            value: records[i].address,
            index: 0,
            data: records[i].payload,
            outcome: Ok::<(), E>(()),
        }),
        after.last() == (Transfer::ControlOut {
            request_type: 0x40,
            request: 0xA0,
            value: 0x7F92,
            index: 0,
            data: seq![0u8],
            outcome: Ok::<(), E>(()),
        }),
{
    let plan = upload_plan(firmware::image_of(records, tail));
    law_upload_writes_what_the_image_holds(records, tail);
    lemma_data_records_are_loaded(records);
    transport::law_requests_are_logged_as_made(before, after, plan, None::<E>);
    assert(plan[0] is Control);
    assert(plan[1 + i] == loads(records)[i]);
    assert(plan[1 + i] is Control);
    assert(plan[plan.len() - 1] is Control);
}

proof fn lemma_data_records_are_loaded(records: Seq<Written>)
    requires
        forall|k: int| 0 <= k < records.len() ==> (#[trigger] records[k]).code == 0,
    ensures
        loads(records).len() == records.len(),
        forall|i: int|
            0 <= i < records.len() ==> loads(records)[i] == (Request::Control {
                request_type: 0x40,
                request: 0xA0,
                value: (#[trigger] records[i]).address,
                index: 0,
                data: records[i].payload,
            }),
    decreases records.len(),
{
    if records.len() > 0 {
        let rest = records.drop_first();
        assert forall|k: int| 0 <= k < rest.len() implies (#[trigger] rest[k]).code == 0 by {
            assert(rest[k] == records[k + 1]);
        }
        lemma_data_records_are_loaded(rest);
        assert forall|i: int| 0 <= i < records.len() implies loads(records)[i] == (
        Request::Control {
            request_type: 0x40,
            request: 0xA0,
            value: (#[trigger] records[i]).address,
            index: 0,
            data: records[i].payload,
        }) by {
            if i > 0 {
                assert(loads(records)[i] == loads(rest)[i - 1]);
                assert(rest[i - 1] == records[i]);
            }
        }
    }
}

} // verus!
