//! Intel HEX handling for the firmware image.
//!
//! The vendor firmware ships as Intel HEX text despite its `.bin` extension, so
//! the image is validated and streamed record-by-record rather than decoded into
//! a single blob. That keeps the uploader free of allocation and, more
//! importantly, lets each record be checksummed before it is clocked into the
//! CPU's RAM: a corrupt upload would run corrupt code until the next power cycle.

use vstd::prelude::*;

verus! {

/// The character that opens every record.
pub const RECORD_MARK: u8 = 0x3A;

/// Longest payload a single Intel HEX record can carry.
///
/// The record length field is one byte, so a caller's per-record buffer never
/// needs to exceed this.
pub const MAX_RECORD_PAYLOAD: usize = 255;

/// The canonical Intel HEX end-of-file record, `:00000001FF`.
pub open spec fn eof_record() -> Seq<u8> {
    seq![0x3Au8, 0x30, 0x30, 0x30, 0x30, 0x30, 0x30, 0x30, 0x31, 0x46, 0x46]
}

/// `c` with an ASCII capital letter replaced by its small counterpart.
pub open spec fn lower(c: u8) -> u8 {
    if 0x41 <= c <= 0x5A {
        (c + 0x20) as u8
    } else {
        c
    }
}

/// `needle` stands in `haystack` at `at`, letters compared without regard to case.
pub open spec fn found_at(haystack: Seq<u8>, needle: Seq<u8>, at: int) -> bool {
    &&& 0 <= at
    &&& at + needle.len() <= haystack.len()
    &&& forall|j: int| 0 <= j < needle.len() ==> lower(#[trigger] needle[j]) == lower(haystack[at + j])
}

/// `needle` stands somewhere in `haystack`, letters compared without regard to case.
pub open spec fn occurs(haystack: Seq<u8>, needle: Seq<u8>) -> bool {
    exists|at: int| #[trigger] found_at(haystack, needle, at)
}

/// A blob has the outline of an Intel HEX image: it opens with a record mark and
/// has the end-of-file record in it.
pub open spec fn intel_hex(bytes: Seq<u8>) -> bool {
    &&& bytes.len() > 0
    &&& bytes[0] == RECORD_MARK
    &&& occurs(bytes, eof_record())
}

/// Check that a blob is Intel HEX.
///
/// Intended for the point at which an image is obtained, so that a missing or
/// wrong firmware path fails there rather than on the hardware.
pub fn is_intel_hex(bytes: &[u8]) -> (yes: bool)
    ensures
        yes == intel_hex(bytes@),
{
    if bytes.is_empty() || bytes[0] != RECORD_MARK {
        return false;
    }
    let eof: [u8; 11] = [
        0x3A, 0x30, 0x30, 0x30, 0x30, 0x30, 0x30, 0x30, 0x31, 0x46, 0x46,
    ];
    assert(eof@ =~= eof_record());
    contains(bytes, eof.as_slice())
}

/// Whether `needle` stands somewhere in `haystack`, without regard to case.
fn contains(haystack: &[u8], needle: &[u8]) -> (yes: bool)
    ensures
        yes == occurs(haystack@, needle@),
{
    if needle.len() > haystack.len() {
        return false;
    }
    let mut i: usize = 0;
    while i <= haystack.len() - needle.len()
        invariant
            needle@.len() <= haystack@.len(),
            i <= haystack@.len() - needle@.len() + 1,
            forall|at: int| 0 <= at < i ==> !#[trigger] found_at(haystack@, needle@, at),
        decreases haystack@.len() - needle@.len() + 1 - i,
    {
        let mut j: usize = 0;
        while j < needle.len() && eq_ignore_case(haystack[i + j], needle[j])
            invariant
                i + needle@.len() <= haystack.len(),
                j <= needle@.len(),
                forall|k: int| 0 <= k < j ==> lower(#[trigger] needle@[k]) == lower(haystack@[i + k]),
            ensures
                j == needle@.len() || lower(needle@[j as int]) != lower(haystack@[i + j]),
            decreases needle@.len() - j,
        {
            j += 1;
        }
        if j == needle.len() {
            assert(found_at(haystack@, needle@, i as int));
            return true;
        }
        assert(!found_at(haystack@, needle@, i as int)) by {
            assert(lower(needle@[j as int]) != lower(haystack@[i + j]));
        }
        i += 1;
    }
    false
}

fn eq_ignore_case(a: u8, b: u8) -> (same: bool)
    ensures
        same == (lower(a) == lower(b)),
{
    to_lower(a) == to_lower(b)
}

fn to_lower(c: u8) -> (small: u8)
    ensures
        small == lower(c),
{
    if c >= 0x41 && c <= 0x5A {
        c + 0x20
    } else {
        c
    }
}

/// Failure while decoding an Intel HEX record.
#[derive(Debug, Clone, Copy, PartialEq, Eq, Structural)]
pub enum HexError {
    /// A record ended before its declared length was satisfied.
    Truncated,
    /// A character outside `[0-9A-Fa-f]` appeared where a hex digit was required.
    BadDigit,
    /// A record's checksum did not agree with its contents.
    BadChecksum,
    /// The caller's payload buffer was smaller than the record required.
    BufferTooSmall,
}

/// The kind of an Intel HEX record.
#[derive(Debug, Clone, Copy, PartialEq, Eq, Structural)]
pub enum RecordKind {
    /// Payload to be written at the record's address.
    Data,
    /// End-of-file marker.
    Eof,
    /// A record type this image is not expected to contain.
    Other(u8),
}

/// A decoded record header; the payload is written to the caller's buffer.
#[derive(Debug, Clone, Copy, PartialEq, Eq, Structural)]
pub struct Record {
    /// Load address. The EZ-USB download uses this directly as the `wValue` of
    /// the write request.
    pub address: u16,
    /// The record type.
    pub kind: RecordKind,
    /// Number of payload bytes written to the caller's buffer.
    pub len: u8,
}

/// The record kind that a type byte stands for.
pub open spec fn kind_of(code: u8) -> RecordKind {
    if code == 0 {
        RecordKind::Data
    } else if code == 1 {
        RecordKind::Eof
    } else {
        RecordKind::Other(code)
    }
}

/// The value of a hex digit of either case.
pub open spec fn digit(c: u8) -> Option<int> {
    if 0x30 <= c <= 0x39 {
        Some(c - 0x30)
    } else if 0x61 <= c <= 0x66 {
        Some(c - 0x61 + 10)
    } else if 0x41 <= c <= 0x46 {
        Some(c - 0x41 + 10)
    } else {
        None
    }
}

/// `data` has a hex digit at `pos`.
pub open spec fn digit_at(data: Seq<u8>, pos: int) -> bool {
    0 <= pos < data.len() && digit(data[pos]) is Some
}

/// The byte that the two digits at `pos` spell.
pub open spec fn byte_at(data: Seq<u8>, pos: int) -> u8 {
    (16 * digit(data[pos])->Some_0 + digit(data[pos + 1])->Some_0) as u8
}

/// The `n` bytes spelled by the digits from `pos` on.
pub open spec fn bytes_at(data: Seq<u8>, pos: int, n: int) -> Seq<u8> {
    Seq::new(n as nat, |i: int| byte_at(data, pos + 2 * i))
}

/// The first place in `pos..end` without a hex digit, or `end` if there is none.
pub open spec fn first_bad(data: Seq<u8>, pos: int, end: int) -> int
    decreases end - pos,
{
    if pos < end && digit_at(data, pos) {
        first_bad(data, pos + 1, end)
    } else {
        pos
    }
}

/// The first record mark at or after `pos`, or the end of `data` if none is left.
pub open spec fn next_mark(data: Seq<u8>, pos: int) -> int
    decreases data.len() - pos,
{
    if 0 <= pos < data.len() && data[pos] != RECORD_MARK {
        next_mark(data, pos + 1)
    } else {
        pos
    }
}

/// The sum of `bytes`.
pub open spec fn byte_sum(bytes: Seq<u8>) -> int
    decreases bytes.len(),
{
    if bytes.len() == 0 {
        0
    } else {
        byte_sum(bytes.drop_last()) + bytes.last()
    }
}

/// What reading one record comes to: the outcome, the place that reading goes on
/// from, and the payload bytes that were decoded on the way.
pub struct Reading {
    pub outcome: Result<Record, HexError>,
    pub next: int,
    pub payload: Seq<u8>,
}

/// Reading that stops because there is no hex digit at `bad`. The character in the
/// way is consumed, if there is one.
pub open spec fn stopped_at(data: Seq<u8>, bad: int, payload: Seq<u8>) -> Reading {
    if bad < data.len() {
        Reading { outcome: Err(HexError::BadDigit), next: bad + 1, payload }
    } else {
        Reading { outcome: Err(HexError::Truncated), next: bad, payload }
    }
}

/// Reading the record whose mark is at `mark`, for a caller with `room` bytes for
/// the payload.
///
/// After the mark come, each spelled with two digits: the payload length, two
/// address bytes (high first), the type, the payload, and a checksum byte that
/// makes all the record's bytes sum to a multiple of 256.
pub open spec fn read_record(data: Seq<u8>, mark: int, room: int) -> Reading {
    let header = mark + 1;
    let body = header + 8;
    if first_bad(data, header, body) < body {
        stopped_at(data, first_bad(data, header, body), Seq::empty())
    } else {
        let len = byte_at(data, header);
        let end = body + 2 * len + 2;
        let bad = first_bad(data, body, end);
        if len > room {
            Reading { outcome: Err(HexError::BufferTooSmall), next: body, payload: Seq::empty() }
        } else if bad < end {
            stopped_at(data, bad, bytes_at(data, body, (bad - body) / 2))
        } else {
            Reading {
                outcome: if byte_sum(bytes_at(data, header, len + 5)) % 256 == 0 {
                    Ok(
                        Record {
                            address: (256 * byte_at(data, header + 2) + byte_at(
                                data,
                                header + 4,
                            )) as u16,
                            kind: kind_of(byte_at(data, header + 6)),
                            len,
                        },
                    )
                } else {
                    Err(HexError::BadChecksum)
                },
                next: end,
                payload: bytes_at(data, body, len as int),
            }
        }
    }
}

/// `buffer` with its front replaced by `front`.
pub open spec fn overlay(buffer: Seq<u8>, front: Seq<u8>) -> Seq<u8> {
    front + buffer.skip(front.len() as int)
}

/// A pull-based reader over an Intel HEX image.
///
/// This is a lending reader rather than an iterator: each record's payload is
/// written into a caller-owned buffer, which avoids carrying a 255-byte array in
/// every yielded value and keeps the whole path allocation-free.
pub struct HexReader<'a> {
    data: &'a [u8],
    pos: usize,
}

impl<'a> HexReader<'a> {
    /// The image being read.
    pub closed spec fn image(&self) -> Seq<u8> {
        self.data@
    }

    /// The place in the image that reading goes on from.
    pub closed spec fn position(&self) -> int {
        self.pos as int
    }

    /// The place that reading goes on from is never negative.
    pub proof fn lemma_position(&self)
        ensures
            self.position() >= 0,
    {
    }

    /// Start reading `data`.
    pub fn new(data: &'a [u8]) -> (reader: Self)
        ensures
            reader.image() == data@,
            reader.position() == 0,
    {
        HexReader { data, pos: 0 }
    }

    /// Decode the next record, writing its payload into `out`.
    ///
    /// Returns `None` once no further record marks remain. Whitespace and line
    /// endings between records are skipped.
    pub fn next(&mut self, out: &mut [u8]) -> (record: Option<Result<Record, HexError>>)
        ensures
            final(self).image() == old(self).image(),
            ({
                let image = old(self).image();
                let mark = next_mark(image, old(self).position());
                let reading = read_record(image, mark, old(out)@.len() as int);
                if mark < image.len() {
                    &&& record == Some(reading.outcome)
                    &&& final(self).position() == reading.next
                    &&& final(out)@ == overlay(old(out)@, reading.payload)
                } else {
                    &&& record is None
                    &&& final(self).position() == mark
                    &&& final(out)@ == old(out)@
                }
            }),
    {
        while self.pos < self.data.len() && self.data[self.pos] != RECORD_MARK
            invariant
                self.data@ == old(self).data@,
                next_mark(self.data@, self.pos as int) == next_mark(
                    self.data@,
                    old(self).pos as int,
                ),
            decreases self.data@.len() - self.pos,
        {
            self.pos += 1;
        }
        if self.pos >= self.data.len() {
            return None;
        }
        Some(self.parse(out))
    }

    /// Decode the record whose mark the reader has come to, writing its payload into
    /// `out`.
    pub fn parse(&mut self, out: &mut [u8]) -> (record: Result<Record, HexError>)
        requires
            old(self).position() < old(self).image().len(),
        ensures
            final(self).image() == old(self).image(),
            ({
                let reading = read_record(
                    old(self).image(),
                    old(self).position(),
                    old(out)@.len() as int,
                );
                &&& record == reading.outcome
                &&& final(self).position() == reading.next
                &&& final(out)@ == overlay(old(out)@, reading.payload)
            }),
    {
        let ghost data = self.data@;
        let ghost header: int = self.pos + 1;
        assert(overlay(out@, Seq::<u8>::empty()) =~= out@);
        assert(self.pos < self.data.len());
        self.pos += 1;
        let (len, addr_hi, addr_lo, kind): (u8, u8, u8, u8) = match self.header() {
            Ok(fields) => fields,
            Err(e) => return Err(e),
        };
        if len as usize > out.len() {
            return Err(HexError::BufferTooSmall);
        }
        // The checksum covers every field, so it is accumulated as bytes are read
        // and must fold to zero once the trailing checksum byte is counted in.
        let sum: u8 = len.wrapping_add(addr_hi).wrapping_add(addr_lo).wrapping_add(kind);
        let total: u8 = match self.payload(len, sum, out) {
            Ok(total) => total,
            Err(e) => return Err(e),
        };
        proof {
            lemma_sum_of_parts(data, header, len + 1);
        }
        if total != 0 {
            return Err(HexError::BadChecksum);
        }
        assert(((addr_hi as u16) << 8) | addr_lo as u16 == 256 * addr_hi + addr_lo)
            by (bit_vector);
        Ok(
            Record {
                address: ((addr_hi as u16) << 8) | addr_lo as u16,
                kind: match kind {
                    0x00 => RecordKind::Data,
                    0x01 => RecordKind::Eof,
                    other => RecordKind::Other(other),
                },
                len,
            },
        )
    }

    /// Read the length, the two address bytes and the type of a record.
    fn header(&mut self) -> (fields: Result<(u8, u8, u8, u8), HexError>)
        ensures
            final(self).data@ == old(self).data@,
            ({
                let data = old(self).data@;
                let pos = old(self).pos as int;
                let bad = first_bad(data, pos, pos + 8);
                if bad < pos + 8 {
                    &&& fields matches Err(e) && stopped_at(data, bad, Seq::empty()).outcome == Err::<Record, HexError>(e)
                    &&& final(self).pos == stopped_at(data, bad, Seq::empty()).next
                } else {
                    &&& bad == pos + 8
                    &&& fields == Ok::<(u8, u8, u8, u8), HexError>(
                        (
                            byte_at(data, pos),
                            byte_at(data, pos + 2),
                            byte_at(data, pos + 4),
                            byte_at(data, pos + 6),
                        ),
                    )
                    &&& final(self).pos == pos + 8
                }
            }),
    {
        let ghost data = self.data@;
        let ghost pos: int = self.pos as int;
        proof {
            lemma_first_bad_split(data, pos, pos + 2, pos + 8);
            lemma_first_bad_split(data, pos + 2, pos + 4, pos + 8);
            lemma_first_bad_split(data, pos + 4, pos + 6, pos + 8);
        }
        let len: u8 = match self.byte() {
            Ok(b) => b,
            Err(e) => return Err(e),
        };
        let addr_hi: u8 = match self.byte() {
            Ok(b) => b,
            Err(e) => return Err(e),
        };
        let addr_lo: u8 = match self.byte() {
            Ok(b) => b,
            Err(e) => return Err(e),
        };
        let kind: u8 = match self.byte() {
            Ok(b) => b,
            Err(e) => return Err(e),
        };
        Ok((len, addr_hi, addr_lo, kind))
    }

    /// Read `len` payload bytes into `out`, and the checksum byte. Returns `sum` with
    /// all of them added.
    fn payload(&mut self, len: u8, sum: u8, out: &mut [u8]) -> (total: Result<u8, HexError>)
        requires
            len <= old(out)@.len(),
        ensures
            final(self).data@ == old(self).data@,
            ({
                let data = old(self).data@;
                let pos = old(self).pos as int;
                let end = pos + 2 * len + 2;
                let bad = first_bad(data, pos, end);
                if bad < end {
                    let payload = bytes_at(data, pos, (bad - pos) / 2);
                    &&& total matches Err(e) && stopped_at(data, bad, payload).outcome == Err::<Record, HexError>(e)
                    &&& final(self).pos == stopped_at(data, bad, payload).next
                    &&& final(out)@ == overlay(old(out)@, payload)
                } else {
                    &&& total matches Ok(t) && t == (sum + byte_sum(bytes_at(data, pos, len + 1)))
                        % 256
                    &&& final(self).pos == end
                    &&& final(out)@ == overlay(old(out)@, bytes_at(data, pos, len as int))
                }
            }),
    {
        let ghost data = self.data@;
        let ghost pos: int = self.pos as int;
        let ghost end: int = pos + 2 * len + 2;
        let ghost before = out@;
        let mut total: u8 = sum;
        let mut i: usize = 0;
        proof {
            assert(bytes_at(data, pos, 0) =~= Seq::<u8>::empty());
            assert(byte_sum(Seq::<u8>::empty()) == 0);
            assert(overlay(before, Seq::<u8>::empty()) =~= before);
        }
        while i < len as usize
            invariant
                i <= len <= before.len(),
                pos == old(self).pos,
                end == pos + 2 * len + 2,
                data == old(self).data@,
                before == old(out)@,
                self.data@ == data,
                self.pos == pos + 2 * i,
                first_bad(data, pos, end) == first_bad(data, pos + 2 * i, end),
                total == (sum + byte_sum(bytes_at(data, pos, i as int))) % 256,
                out@ == overlay(before, bytes_at(data, pos, i as int)),
            decreases len - i,
        {
            proof {
                lemma_first_bad_split(data, pos + 2 * i, pos + 2 * i + 2, end);
                lemma_bytes_at_grow(data, pos, i as int);
            }
            let b: u8 = match self.byte() {
                Ok(b) => b,
                Err(e) => {
                    assert((first_bad(data, pos, end) - pos) / 2 == i);
                    return Err(e);
                },
            };
            out[i] = b;
            total = total.wrapping_add(b);
            i += 1;
            assert(out@ =~= overlay(before, bytes_at(data, pos, i as int)));
        }
        proof {
            lemma_bytes_at_grow(data, pos, len as int);
            lemma_first_bad_split(data, pos + 2 * len, end, end);
        }
        match self.byte() {
            Ok(checksum) => Ok(total.wrapping_add(checksum)),
            Err(e) => {
                assert((first_bad(data, pos, end) - pos) / 2 == len);
                Err(e)
            },
        }
    }

    fn byte(&mut self) -> (byte: Result<u8, HexError>)
        ensures
            final(self).data@ == old(self).data@,
            ({
                let data = old(self).data@;
                let pos = old(self).pos as int;
                let bad = first_bad(data, pos, pos + 2);
                if bad == pos + 2 {
                    &&& byte == Ok::<u8, HexError>(byte_at(data, pos))
                    &&& final(self).pos == pos + 2
                } else {
                    &&& pos <= bad < pos + 2
                    &&& byte matches Err(e) && stopped_at(data, bad, Seq::empty()).outcome == Err::<Record, HexError>(e)
                    &&& final(self).pos == stopped_at(data, bad, Seq::empty()).next
                }
            }),
    {
        proof {
            reveal_with_fuel(first_bad, 3);
        }
        let hi: u8 = match self.nibble() {
            Ok(n) => n,
            Err(e) => return Err(e),
        };
        let lo: u8 = match self.nibble() {
            Ok(n) => n,
            Err(e) => return Err(e),
        };
        assert((hi << 4) | lo == 16 * hi + lo) by (bit_vector)
            requires
                hi < 16,
                lo < 16,
        ;
        Ok((hi << 4) | lo)
    }

    fn nibble(&mut self) -> (nibble: Result<u8, HexError>)
        ensures
            final(self).data@ == old(self).data@,
            ({
                let data = old(self).data@;
                let pos = old(self).pos as int;
                if digit_at(data, pos) {
                    &&& nibble matches Ok(n) && digit(data[pos]) == Some(n as int) && n < 16
                    &&& final(self).pos == pos + 1
                } else {
                    &&& nibble matches Err(e) && stopped_at(data, pos, Seq::empty()).outcome == Err::<Record, HexError>(e)
                    &&& final(self).pos == stopped_at(data, pos, Seq::empty()).next
                }
            }),
    {
        if self.pos >= self.data.len() {
            return Err(HexError::Truncated);
        }
        let c: u8 = self.data[self.pos];
        self.pos += 1;
        if c >= 0x30 && c <= 0x39 {
            Ok(c - 0x30)
        } else if c >= 0x61 && c <= 0x66 {
            Ok(c - 0x61 + 10)
        } else if c >= 0x41 && c <= 0x46 {
            Ok(c - 0x41 + 10)
        } else {
            Err(HexError::BadDigit)
        }
    }
}

/// `text` spells `bytes`: two hex digits of either case for each, high half first.
pub open spec fn spells(text: Seq<u8>, bytes: Seq<u8>) -> bool {
    &&& text.len() == 2 * bytes.len()
    &&& forall|i: int|
        0 <= i < bytes.len() ==> {
            &&& digit(text[2 * i]) == Some(#[trigger] bytes[i] as int / 16)
            &&& digit(text[2 * i + 1]) == Some(bytes[i] as int % 16)
        }
}

/// The bytes of a record, its checksum last.
pub open spec fn record_bytes(address: u16, code: u8, payload: Seq<u8>, checksum: u8) -> Seq<u8> {
    seq![payload.len() as u8, (address / 256) as u8, (address % 256) as u8, code] + payload + seq![
        checksum,
    ]
}

/// A record as it stands in an image.
pub struct Written {
    /// What stands between the record ahead of it and its mark.
    pub gap: Seq<u8>,
    /// The digits behind its mark.
    pub text: Seq<u8>,
    /// Load address.
    pub address: u16,
    /// Type byte.
    pub code: u8,
    /// Payload.
    pub payload: Seq<u8>,
    /// Checksum byte.
    pub checksum: u8,
}

impl Written {
    /// The record is in Intel HEX form: its text spells its bytes, which sum to a
    /// multiple of 256, and no other record mark stands ahead of it.
    pub open spec fn wf(self) -> bool {
        let bytes = record_bytes(self.address, self.code, self.payload, self.checksum);
        &&& !self.gap.contains(RECORD_MARK)
        &&& self.payload.len() <= MAX_RECORD_PAYLOAD
        &&& byte_sum(bytes) % 256 == 0
        &&& spells(self.text, bytes)
    }

    /// What the image holds for this record.
    pub open spec fn form(self) -> Seq<u8> {
        self.gap + seq![RECORD_MARK] + self.text
    }

    /// What is decoded of the record.
    pub open spec fn record(self) -> Record {
        Record {
            address: self.address,
            kind: kind_of(self.code),
            len: self.payload.len() as u8,
        }
    }
}

/// An image: `records` one after the other, and `tail` behind the last of them.
pub open spec fn image_of(records: Seq<Written>, tail: Seq<u8>) -> Seq<u8>
    decreases records.len(),
{
    if records.len() == 0 {
        tail
    } else {
        records[0].form() + image_of(records.drop_first(), tail)
    }
}

/// What a reader of `data` at `pos` gives, call after call, to a caller whose buffers
/// have room for `rooms` bytes: the outcome and the decoded payload, or `None` when no
/// record is left.
pub open spec fn given(data: Seq<u8>, pos: int, rooms: Seq<nat>) -> Seq<
    Option<(Result<Record, HexError>, Seq<u8>)>,
>
    decreases rooms.len(),
{
    let mark = next_mark(data, pos);
    if rooms.len() == 0 {
        Seq::empty()
    } else if mark < data.len() {
        let reading = read_record(data, mark, rooms[0] as int);
        seq![Some((reading.outcome, reading.payload))] + given(
            data,
            reading.next,
            rooms.drop_first(),
        )
    } else {
        seq![None] + given(data, mark, rooms.drop_first())
    }
}

/// Reading a record consumes its mark and never runs past the end of the image,
/// and what it decodes fits the caller's buffer. So reading record after record
/// comes to an end.
pub proof fn law_reading_advances(data: Seq<u8>, mark: int, room: int)
    requires
        0 <= mark < data.len(),
        0 <= room,
    ensures
        mark < read_record(data, mark, room).next <= data.len(),
        read_record(data, mark, room).payload.len() <= room,
        read_record(data, mark, room).outcome matches Ok(record) ==> read_record(
            data,
            mark,
            room,
        ).payload.len() == record.len,
{
    let header = mark + 1;
    let body = header + 8;
    lemma_first_bad_bounds(data, header, body);
    if first_bad(data, header, body) == body {
        let len = byte_at(data, header);
        let end = body + 2 * len + 2;
        lemma_first_bad_bounds(data, body, end);
    }
}

/// A payload buffer of [`MAX_RECORD_PAYLOAD`] bytes is never too small.
pub proof fn law_largest_buffer_always_fits(data: Seq<u8>, mark: int, room: int)
    requires
        MAX_RECORD_PAYLOAD <= room,
    ensures
        read_record(data, mark, room).outcome != Err::<Record, HexError>(
            HexError::BufferTooSmall,
        ),
{
}

/// Searching for a record mark skips everything else and stops at the first one.
pub proof fn law_next_mark_is_first(data: Seq<u8>, pos: int)
    requires
        0 <= pos <= data.len(),
    ensures
        pos <= next_mark(data, pos) <= data.len(),
        next_mark(data, pos) < data.len() ==> data[next_mark(data, pos)] == RECORD_MARK,
        forall|i: int| pos <= i < next_mark(data, pos) ==> #[trigger] data[i] != RECORD_MARK,
    decreases data.len() - pos,
{
    if pos < data.len() && data[pos] != RECORD_MARK {
        law_next_mark_is_first(data, pos + 1);
    }
}

/// A record that is accepted has bytes that sum to a multiple of 256.
pub proof fn law_accepted_record_is_checksummed(data: Seq<u8>, mark: int, room: int)
    ensures
        read_record(data, mark, room).outcome matches Ok(record) ==> byte_sum(
            bytes_at(data, mark + 1, record.len + 5),
        ) % 256 == 0,
{
}

/// A record in Intel HEX form is read back as it was written, in digits of either case
/// and whatever comes after it.
pub proof fn law_record_reads_back(written: Written, after: Seq<u8>, room: int)
    requires
        written.wf(),
        written.payload.len() <= room,
    ensures
        ({
            let image = written.form() + after;
            &&& next_mark(image, 0) == written.gap.len()
            &&& read_record(image, written.gap.len() as int, room) == (Reading {
                outcome: Ok(written.record()),
                next: written.form().len() as int,
                payload: written.payload,
            })
        }),
{
    let bytes = record_bytes(written.address, written.code, written.payload, written.checksum);
    let mark = written.gap.len() as int;
    let image = written.form() + after;
    let behind = seq![RECORD_MARK] + written.text + after;
    lemma_mark_after(written.gap, behind);
    assert(image =~= written.gap + behind);
    assert(image.subrange(mark + 1, mark + 1 + 2 * bytes.len()) =~= written.text);
    lemma_spelled_text(image, mark + 1, bytes);
    assert(bytes.subrange(4, bytes.len() - 1) =~= written.payload);
    lemma_spelled_record(image, mark, bytes, room);
}

/// A run of records in Intel HEX form, with anything but record marks between and
/// behind them, is read back as it was written: call after call the reader gives one
/// record after the other, in order, records behind an end-of-file record among them,
/// and nothing once all have been given.
pub proof fn law_records_read_back(records: Seq<Written>, tail: Seq<u8>, rooms: Seq<nat>)
    requires
        forall|i: int| 0 <= i < records.len() ==> (#[trigger] records[i]).wf(),
        !tail.contains(RECORD_MARK),
        forall|i: int|
            0 <= i < records.len() && i < rooms.len() ==> (#[trigger] records[i]).payload.len()
                <= rooms[i],
    ensures
        given(image_of(records, tail), 0, rooms) == Seq::new(
            rooms.len(),
            |i: int|
                if i < records.len() {
                    Some((Ok::<Record, HexError>(records[i].record()), records[i].payload))
                } else {
                    None
                },
        ),
    decreases records.len(),
{
    let image = image_of(records, tail);
    if rooms.len() == 0 {
        assert(given(image, 0, rooms) =~= Seq::empty());
    } else if records.len() == 0 {
        law_next_mark_is_first(tail, 0);
        if next_mark(tail, 0) < tail.len() {
            assert(tail.contains(tail[next_mark(tail, 0)]));
        }
        lemma_nothing_is_given_at_the_end(tail, rooms.drop_first());
        lemma_nothing_is_given_at_the_end(tail, rooms);
        assert(given(image, 0, rooms) =~= Seq::new(rooms.len(), |i: int| None));
    } else {
        let first = records[0];
        let rest = records.drop_first();
        let later = rooms.drop_first();
        let front = first.form();
        law_record_reads_back(first, image_of(rest, tail), rooms[0] as int);
        assert forall|i: int| 0 <= i < rest.len() implies (#[trigger] rest[i]).wf() by {
            assert(rest[i] == records[i + 1]);
        }
        assert forall|i: int| 0 <= i < rest.len() && i < later.len() implies (
        #[trigger] rest[i]).payload.len() <= later[i] by {
            assert(rest[i] == records[i + 1]);
        }
        law_records_read_back(rest, tail, later);
        lemma_given_is_local(front, image_of(rest, tail), 0, later);
        assert(given(image, 0, rooms) == seq![
            Some((Ok::<Record, HexError>(first.record()), first.payload)),
        ] + given(image_of(rest, tail), 0, later));
        assert(given(image, 0, rooms) =~= Seq::new(
            rooms.len(),
            |i: int|
                if i < records.len() {
                    Some((Ok::<Record, HexError>(records[i].record()), records[i].payload))
                } else {
                    None
                },
        ));
    }
}

/// Altering one byte of a good record, other than its length, is always caught. Let
/// `good` hold a record at `mark` that is accepted, and `corrupt` one at `place` with
/// valid digits and the same bytes but for byte `k`: that one is refused for its
/// checksum, by every caller with room for it.
pub proof fn law_one_corrupt_byte_is_caught(
    good: Seq<u8>,
    mark: int,
    room: int,
    corrupt: Seq<u8>,
    place: int,
    other_room: int,
    k: int,
)
    requires
        read_record(good, mark, room).outcome is Ok,
        ({
            let len = read_record(good, mark, room).outcome->Ok_0.len;
            let n = len + 5;
            let written = bytes_at(good, mark + 1, n);
            let found = bytes_at(corrupt, place + 1, n);
            &&& len <= other_room
            &&& first_bad(corrupt, place + 1, place + 1 + 2 * n) == place + 1 + 2 * n
            &&& 1 <= k < n
            &&& found[k] != written[k]
            &&& forall|i: int| 0 <= i < n && i != k ==> #[trigger] found[i] == written[i]
        }),
    ensures
        read_record(corrupt, place, other_room).outcome == Err::<Record, HexError>(
            HexError::BadChecksum,
        ),
{
    let n = read_record(good, mark, room).outcome->Ok_0.len + 5;
    let written = bytes_at(good, mark + 1, n);
    let bytes = bytes_at(corrupt, place + 1, n);
    assert forall|i: int| 0 <= i < bytes.len() implies #[trigger] spells_byte(
        corrupt,
        place + 1,
        bytes,
        i,
    ) by {
        lemma_first_bad_digits(corrupt, place + 1, place + 1 + 2 * n, place + 1 + 2 * i);
        lemma_first_bad_digits(corrupt, place + 1, place + 1 + 2 * n, place + 2 + 2 * i);
    }
    assert(written[0] == byte_at(good, mark + 1));
    assert(bytes[0] == written[0]);
    lemma_spelled_record(corrupt, place, bytes, other_room);
    assert(bytes =~= written.update(k, bytes[k]));
    lemma_byte_sum_update(written, k, bytes[k]);
}

/// Whether a blob passes for Intel HEX does not depend on the case of its letters.
pub proof fn law_case_is_ignored(a: Seq<u8>, b: Seq<u8>)
    requires
        a.len() == b.len(),
        forall|i: int| 0 <= i < a.len() ==> lower(#[trigger] a[i]) == lower(b[i]),
    ensures
        intel_hex(a) == intel_hex(b),
{
    let eof = eof_record();
    assert forall|at: int| found_at(a, eof, at) == #[trigger] found_at(b, eof, at) by {
        if 0 <= at && at + eof.len() <= a.len() {
            assert forall|j: int| 0 <= j < eof.len() implies lower(#[trigger] a[at + j]) == lower(
                b[at + j],
            ) by {}
            if found_at(a, eof, at) {
                assert forall|j: int| 0 <= j < eof.len() implies lower(#[trigger] eof[j]) == lower(
                    b[at + j],
                ) by {
                    assert(lower(a[at + j]) == lower(b[at + j]));
                }
            }
            if found_at(b, eof, at) {
                assert forall|j: int| 0 <= j < eof.len() implies lower(#[trigger] eof[j]) == lower(
                    a[at + j],
                ) by {
                    assert(lower(a[at + j]) == lower(b[at + j]));
                }
            }
        }
    }
    if a.len() > 0 {
        assert(lower(a[0]) == lower(b[0]));
    }
    if occurs(a, eof) {
        let at = choose|at: int| #[trigger] found_at(a, eof, at);
        assert(found_at(b, eof, at));
    }
    if occurs(b, eof) {
        let at = choose|at: int| #[trigger] found_at(b, eof, at);
        assert(found_at(a, eof, at));
    }
}

/// A digit keeps its value when its case changes.
pub proof fn law_digit_case_is_ignored(c: u8)
    ensures
        digit(lower(c)) == digit(c),
{
}

/// What is read from a record does not depend on what the image holds ahead of it.
pub proof fn law_reading_is_local(before: Seq<u8>, data: Seq<u8>, mark: int, room: int)
    requires
        0 <= mark < data.len(),
    ensures
        ({
            let reading = read_record(data, mark, room);
            read_record(before + data, before.len() + mark, room) == (Reading {
                outcome: reading.outcome,
                next: before.len() + reading.next,
                payload: reading.payload,
            })
        }),
{
    let shift = before.len() as int;
    let whole = before + data;
    let header = mark + 1;
    let body = header + 8;
    lemma_first_bad_shift(before, data, header, body);
    lemma_first_bad_bounds(data, header, body);
    if first_bad(data, header, body) == body {
        lemma_bytes_at_shift(before, data, header, 4);
        assert(bytes_at(data, header, 4)[0] == byte_at(data, header));
        assert(bytes_at(data, header, 4)[1] == byte_at(data, header + 2));
        assert(bytes_at(data, header, 4)[2] == byte_at(data, header + 4));
        assert(bytes_at(data, header, 4)[3] == byte_at(data, header + 6));
        assert(bytes_at(whole, shift + header, 4)[0] == byte_at(whole, shift + header));
        assert(bytes_at(whole, shift + header, 4)[1] == byte_at(whole, shift + header + 2));
        assert(bytes_at(whole, shift + header, 4)[2] == byte_at(whole, shift + header + 4));
        assert(bytes_at(whole, shift + header, 4)[3] == byte_at(whole, shift + header + 6));
        let len = byte_at(data, header);
        let end = body + 2 * len + 2;
        let bad = first_bad(data, body, end);
        lemma_first_bad_shift(before, data, body, end);
        lemma_first_bad_bounds(data, body, end);
        if bad < end {
            lemma_bytes_at_shift(before, data, body, (bad - body) / 2);
        } else {
            lemma_bytes_at_shift(before, data, header, len + 5);
            lemma_bytes_at_shift(before, data, body, len as int);
        }
    }
}

/// A record that can be read in full reads the same whatever is appended to the
/// image.
pub proof fn law_reading_ignores_what_follows(data: Seq<u8>, after: Seq<u8>, mark: int, room: int)
    requires
        0 <= mark < data.len(),
        read_record(data, mark, room).outcome is Ok,
    ensures
        read_record(data + after, mark, room) == read_record(data, mark, room),
{
    let whole = data + after;
    let header = mark + 1;
    let body = header + 8;
    let len = byte_at(data, header);
    let end = body + 2 * len + 2;
    lemma_first_bad_bounds(data, header, body);
    lemma_first_bad_bounds(data, body, end);
    lemma_first_bad_append(data, after, header, body);
    lemma_first_bad_append(data, after, body, end);
    assert(whole.take(data.len() as int) =~= data);
    assert forall|i: int| 0 <= i < data.len() - 1 implies #[trigger] byte_at(data, i) == byte_at(
        whole,
        i,
    ) by {
        assert(whole[i] == data[i]);
        assert(whole[i + 1] == data[i + 1]);
    }
    assert(bytes_at(whole, header, len + 5) =~= bytes_at(data, header, len + 5));
    assert(bytes_at(whole, body, len as int) =~= bytes_at(data, body, len as int));
}

/// Searching for a record mark does not depend on what the image holds ahead of
/// the place that the search starts from.
pub proof fn law_next_mark_is_local(before: Seq<u8>, data: Seq<u8>, pos: int)
    requires
        0 <= pos <= data.len(),
    ensures
        next_mark(before + data, before.len() + pos) == before.len() + next_mark(data, pos),
    decreases data.len() - pos,
{
    if pos < data.len() && data[pos] != RECORD_MARK {
        law_next_mark_is_local(before, data, pos + 1);
    }
}

proof fn lemma_first_bad_shift(before: Seq<u8>, data: Seq<u8>, pos: int, end: int)
    requires
        0 <= pos,
    ensures
        first_bad(before + data, before.len() + pos, before.len() + end) == before.len()
            + first_bad(data, pos, end),
    decreases end - pos,
{
    assert(digit_at(before + data, before.len() + pos) == digit_at(data, pos));
    if pos < end && digit_at(data, pos) {
        lemma_first_bad_shift(before, data, pos + 1, end);
    }
}

proof fn lemma_first_bad_append(data: Seq<u8>, after: Seq<u8>, pos: int, end: int)
    requires
        0 <= pos <= end,
        first_bad(data, pos, end) == end,
    ensures
        first_bad(data + after, pos, end) == end,
    decreases end - pos,
{
    if pos < end {
        assert(digit_at(data + after, pos));
        lemma_first_bad_append(data, after, pos + 1, end);
    }
}

proof fn lemma_bytes_at_shift(before: Seq<u8>, data: Seq<u8>, pos: int, n: int)
    requires
        0 <= pos,
        0 <= n,
        pos + 2 * n <= data.len(),
    ensures
        bytes_at(before + data, before.len() + pos, n) == bytes_at(data, pos, n),
{
    let whole = before + data;
    let shift = before.len() as int;
    assert forall|i: int| 0 <= i < n implies bytes_at(whole, shift + pos, n)[i] == #[trigger] bytes_at(
        data,
        pos,
        n,
    )[i] by {
        assert(whole[shift + pos + 2 * i] == data[pos + 2 * i]);
        assert(whole[shift + pos + 2 * i + 1] == data[pos + 2 * i + 1]);
    }
    assert(bytes_at(whole, shift + pos, n) =~= bytes_at(data, pos, n));
}

/// The first record mark of `after` is found past a stretch without any.
proof fn lemma_mark_after(before: Seq<u8>, after: Seq<u8>)
    requires
        !before.contains(RECORD_MARK),
        after.len() > 0,
        after[0] == RECORD_MARK,
    ensures
        next_mark(before + after, 0) == before.len(),
{
    let image = before + after;
    law_next_mark_is_first(image, 0);
    assert(image[before.len() as int] == RECORD_MARK);
    let found = next_mark(image, 0);
    if found < before.len() {
        assert(before[found] == RECORD_MARK);
    }
}

/// What a reader gives does not depend on what the image holds ahead of the place that
/// it has come to.
proof fn lemma_given_is_local(before: Seq<u8>, data: Seq<u8>, pos: int, rooms: Seq<nat>)
    requires
        0 <= pos <= data.len(),
    ensures
        given(before + data, before.len() + pos, rooms) == given(data, pos, rooms),
    decreases rooms.len(),
{
    if rooms.len() > 0 {
        let mark = next_mark(data, pos);
        law_next_mark_is_first(data, pos);
        law_next_mark_is_local(before, data, pos);
        if mark < data.len() {
            law_reading_is_local(before, data, mark, rooms[0] as int);
            law_reading_advances(data, mark, rooms[0] as int);
            lemma_given_is_local(
                before,
                data,
                read_record(data, mark, rooms[0] as int).next,
                rooms.drop_first(),
            );
        } else {
            lemma_given_is_local(before, data, mark, rooms.drop_first());
        }
    }
}

/// At the end of the image there is nothing left to give.
proof fn lemma_nothing_is_given_at_the_end(data: Seq<u8>, rooms: Seq<nat>)
    ensures
        given(data, data.len() as int, rooms) == Seq::new(
            rooms.len(),
            |i: int| None::<(Result<Record, HexError>, Seq<u8>)>,
        ),
    decreases rooms.len(),
{
    let none = Seq::new(rooms.len(), |i: int| None::<(Result<Record, HexError>, Seq<u8>)>);
    if rooms.len() > 0 {
        lemma_nothing_is_given_at_the_end(data, rooms.drop_first());
    }
    assert(given(data, data.len() as int, rooms) =~= none);
}

proof fn lemma_first_bad_bounds(data: Seq<u8>, pos: int, end: int)
    requires
        0 <= pos <= data.len(),
        pos <= end,
    ensures
        pos <= first_bad(data, pos, end) <= data.len(),
        first_bad(data, pos, end) <= end,
    decreases end - pos,
{
    if pos < end && digit_at(data, pos) {
        lemma_first_bad_bounds(data, pos + 1, end);
    }
}

/// Every place ahead of the first one without a digit has a digit.
proof fn lemma_first_bad_digits(data: Seq<u8>, pos: int, end: int, i: int)
    requires
        pos <= i < first_bad(data, pos, end),
    ensures
        digit_at(data, i),
    decreases end - pos,
{
    if pos < i {
        lemma_first_bad_digits(data, pos + 1, end, i);
    }
}

/// A stretch of digits has no place without one.
proof fn lemma_all_digits(data: Seq<u8>, pos: int, end: int)
    requires
        pos <= end,
        forall|i: int| pos <= i < end ==> #[trigger] digit_at(data, i),
    ensures
        first_bad(data, pos, end) == end,
    decreases end - pos,
{
    if pos < end {
        assert(digit_at(data, pos));
        lemma_all_digits(data, pos + 1, end);
    }
}

/// The two digits for byte `i` of `bytes`, spelled from `pos` on, are in place.
spec fn spells_byte(data: Seq<u8>, pos: int, bytes: Seq<u8>, i: int) -> bool {
    &&& digit_at(data, pos + 2 * i)
    &&& digit_at(data, pos + 2 * i + 1)
    &&& byte_at(data, pos + 2 * i) == bytes[i]
}

proof fn lemma_spelled_text(data: Seq<u8>, pos: int, bytes: Seq<u8>)
    requires
        0 <= pos,
        pos + 2 * bytes.len() <= data.len(),
        spells(data.subrange(pos, pos + 2 * bytes.len()), bytes),
    ensures
        forall|i: int| 0 <= i < bytes.len() ==> #[trigger] spells_byte(data, pos, bytes, i),
{
    let text = data.subrange(pos, pos + 2 * bytes.len());
    assert forall|i: int| 0 <= i < bytes.len() implies #[trigger] spells_byte(
        data,
        pos,
        bytes,
        i,
    ) by {
        assert(text[2 * i] == data[pos + 2 * i]);
        assert(text[2 * i + 1] == data[pos + 2 * i + 1]);
        assert(digit(text[2 * i]) == Some(bytes[i] as int / 16));
    }
}

/// What is read from a record of the right length whose text spells `bytes`.
proof fn lemma_spelled_record(data: Seq<u8>, mark: int, bytes: Seq<u8>, room: int)
    requires
        bytes.len() >= 5,
        bytes.len() == bytes[0] + 5,
        bytes[0] <= room,
        forall|i: int|
            0 <= i < bytes.len() ==> #[trigger] spells_byte(data, mark + 1, bytes, i),
    ensures
        read_record(data, mark, room) == (Reading {
            outcome: if byte_sum(bytes) % 256 == 0 {
                Ok(
                    Record {
                        address: (256 * bytes[1] + bytes[2]) as u16,
                        kind: kind_of(bytes[3]),
                        len: bytes[0],
                    },
                )
            } else {
                Err(HexError::BadChecksum)
            },
            next: mark + 1 + 2 * bytes.len(),
            payload: bytes.subrange(4, bytes.len() - 1),
        }),
{
    let header = mark + 1;
    let body = header + 8;
    let end = header + 2 * bytes.len();
    assert forall|i: int| header <= i < end implies #[trigger] digit_at(data, i) by {
        assert(spells_byte(data, header, bytes, (i - header) / 2));
    }
    lemma_all_digits(data, header, body);
    lemma_all_digits(data, body, end);
    assert(spells_byte(data, header, bytes, 0));
    assert(spells_byte(data, header, bytes, 1));
    assert(spells_byte(data, header, bytes, 2));
    assert(spells_byte(data, header, bytes, 3));
    assert(bytes_at(data, header, bytes.len() as int) =~= bytes) by {
        assert forall|i: int| 0 <= i < bytes.len() implies #[trigger] bytes[i] == byte_at(
            data,
            header + 2 * i,
        ) by {
            assert(spells_byte(data, header, bytes, i));
        }
    }
    assert(bytes_at(data, body, bytes[0] as int) =~= bytes.subrange(4, bytes.len() - 1)) by {
        assert forall|i: int| 0 <= i < bytes[0] implies bytes_at(data, body, bytes[0] as int)[i]
            == #[trigger] bytes.subrange(4, bytes.len() - 1)[i] by {
            assert(spells_byte(data, header, bytes, 4 + i));
        }
    }
}

proof fn lemma_byte_sum_update(bytes: Seq<u8>, k: int, b: u8)
    requires
        0 <= k < bytes.len(),
    ensures
        byte_sum(bytes.update(k, b)) == byte_sum(bytes) - bytes[k] + b,
    decreases bytes.len(),
{
    let updated = bytes.update(k, b);
    if k == bytes.len() - 1 {
        assert(updated.drop_last() =~= bytes.drop_last());
    } else {
        assert(updated.drop_last() =~= bytes.drop_last().update(k, b));
        lemma_byte_sum_update(bytes.drop_last(), k, b);
    }
}

/// Looking for the first place without a digit can be done in two stretches.
proof fn lemma_first_bad_split(data: Seq<u8>, pos: int, middle: int, end: int)
    requires
        pos <= middle <= end,
    ensures
        pos <= first_bad(data, pos, middle) <= middle,
        first_bad(data, pos, middle) < middle ==> first_bad(data, pos, end) == first_bad(
            data,
            pos,
            middle,
        ),
        first_bad(data, pos, middle) == middle ==> first_bad(data, pos, end) == first_bad(
            data,
            middle,
            end,
        ),
    decreases middle - pos,
{
    if pos < middle && digit_at(data, pos) {
        lemma_first_bad_split(data, pos + 1, middle, end);
    }
}

/// One more byte from the digits extends the bytes read, and their sum.
proof fn lemma_bytes_at_grow(data: Seq<u8>, pos: int, n: int)
    requires
        0 <= n,
    ensures
        bytes_at(data, pos, n + 1) == bytes_at(data, pos, n).push(byte_at(data, pos + 2 * n)),
        byte_sum(bytes_at(data, pos, n + 1)) == byte_sum(bytes_at(data, pos, n)) + byte_at(
            data,
            pos + 2 * n,
        ),
{
    let longer = bytes_at(data, pos, n + 1);
    assert(longer =~= bytes_at(data, pos, n).push(byte_at(data, pos + 2 * n)));
    assert(longer.drop_last() =~= bytes_at(data, pos, n));
}

/// The bytes of a record sum to the sum of its first four and of the rest.
proof fn lemma_sum_of_parts(data: Seq<u8>, header: int, n: int)
    requires
        0 <= n,
    ensures
        byte_sum(bytes_at(data, header, 4 + n)) == byte_at(data, header) + byte_at(data, header + 2)
            + byte_at(data, header + 4) + byte_at(data, header + 6) + byte_sum(
            bytes_at(data, header + 8, n),
        ),
    decreases n,
{
    if n == 0 {
        assert(bytes_at(data, header, 0) =~= Seq::<u8>::empty());
        assert(bytes_at(data, header + 8, 0) =~= Seq::<u8>::empty());
        lemma_bytes_at_grow(data, header, 0);
        lemma_bytes_at_grow(data, header, 1);
        lemma_bytes_at_grow(data, header, 2);
        lemma_bytes_at_grow(data, header, 3);
    } else {
        lemma_sum_of_parts(data, header, n - 1);
        lemma_bytes_at_grow(data, header, 4 + n - 1);
        lemma_bytes_at_grow(data, header + 8, n - 1);
    }
}

/// A hex digit has the value that its character stands for, and nothing else is a hex
/// digit.
pub proof fn law_digit_has_its_value(k: int, c: u8)
    ensures
        0 <= k < 10 ==> digit((0x30 + k) as u8) == Some(k),
        0 <= k < 6 ==> digit((0x41 + k) as u8) == Some(10 + k),
        0 <= k < 6 ==> digit((0x61 + k) as u8) == Some(10 + k),
        !(0x30 <= c <= 0x39) && !(0x41 <= c <= 0x46) && !(0x61 <= c <= 0x66) ==> digit(c) is None,
{
}

/// Text in the digits `0123456789ABCDEF`, or in their small counterparts, spells the
/// bytes whose halves the digits stand for.
pub proof fn law_hex_text_spells_its_bytes(text: Seq<u8>, bytes: Seq<u8>)
    requires
        text.len() == 2 * bytes.len(),
        ({
            let capitals = seq![
                0x30u8, 0x31, 0x32, 0x33, 0x34, 0x35, 0x36, 0x37, 0x38, 0x39, 0x41, 0x42, 0x43,
                0x44, 0x45, 0x46,
            ];
            let smalls = seq![
                0x30u8, 0x31, 0x32, 0x33, 0x34, 0x35, 0x36, 0x37, 0x38, 0x39, 0x61, 0x62, 0x63,
                0x64, 0x65, 0x66,
            ];
            forall|i: int|
                0 <= i < bytes.len() ==> ({
                    let high = #[trigger] bytes[i] as int / 16;
                    let low = bytes[i] as int % 16;
                    &&& text[2 * i] == capitals[high] || text[2 * i] == smalls[high]
                    &&& text[2 * i + 1] == capitals[low] || text[2 * i + 1] == smalls[low]
                })
        }),
    ensures
        spells(text, bytes),
{
    assert forall|i: int| 0 <= i < bytes.len() implies digit(text[2 * i]) == Some(
        #[trigger] bytes[i] as int / 16,
    ) && digit(text[2 * i + 1]) == Some(bytes[i] as int % 16) by {
        law_digit_has_its_value(bytes[i] as int / 16, 0);
        law_digit_has_its_value(bytes[i] as int / 16 - 10, 0);
        law_digit_has_its_value(bytes[i] as int % 16, 0);
        law_digit_has_its_value(bytes[i] as int % 16 - 10, 0);
    }
}

/// The sum of bytes counts every one of them once.
pub proof fn law_byte_sum_counts_every_byte(bytes: Seq<u8>, b: u8)
    ensures
        byte_sum(Seq::empty()) == 0,
        byte_sum(bytes.push(b)) == byte_sum(bytes) + b,
{
    assert(bytes.push(b).drop_last() =~= bytes);
}

/// What is read of a record whose text is all there, for every content: behind the mark
/// stand the payload's length, two address bytes with the high one first, the type, the
/// payload and the checksum byte. The record is accepted exactly if they all sum to a
/// multiple of 256, and is read to its end either way.
pub proof fn law_whole_record_is_decoded(data: Seq<u8>, mark: int, bytes: Seq<u8>, room: int)
    requires
        0 <= mark,
        mark + 1 + 2 * bytes.len() <= data.len(),
        bytes.len() >= 5,
        bytes.len() == bytes[0] + 5,
        bytes[0] <= room,
        spells(data.subrange(mark + 1, mark + 1 + 2 * bytes.len()), bytes),
    ensures
        ({
            let reading = read_record(data, mark, room);
            &&& byte_sum(bytes) % 256 == 0 ==> ({
                &&& reading.outcome is Ok
                &&& reading.outcome->Ok_0.address == 256 * bytes[1] + bytes[2]
                &&& reading.outcome->Ok_0.len == bytes[0]
                &&& bytes[3] == 0 <==> reading.outcome->Ok_0.kind == RecordKind::Data
                &&& bytes[3] == 1 <==> reading.outcome->Ok_0.kind == RecordKind::Eof
                &&& bytes[3] > 1 ==> reading.outcome->Ok_0.kind == RecordKind::Other(bytes[3])
            })
            &&& byte_sum(bytes) % 256 != 0 ==> reading.outcome == Err::<Record, HexError>(
                HexError::BadChecksum,
            )
            &&& reading.next == mark + 1 + 2 * bytes.len()
            &&& reading.payload.len() == bytes[0]
            &&& forall|i: int|
                0 <= i < bytes[0] ==> #[trigger] reading.payload[i] == bytes[4 + i]
        }),
{
    lemma_spelled_text(data, mark + 1, bytes);
    lemma_spelled_record(data, mark, bytes, room);
}

/// A record with a longer payload than the caller has room for is refused for that,
/// once its header is read, and nothing is decoded of it.
pub proof fn law_long_record_needs_room(data: Seq<u8>, mark: int, header: Seq<u8>, room: int)
    requires
        0 <= mark,
        mark + 9 <= data.len(),
        header.len() == 4,
        spells(data.subrange(mark + 1, mark + 9), header),
        header[0] > room,
    ensures
        ({
            let reading = read_record(data, mark, room);
            &&& reading.outcome == Err::<Record, HexError>(HexError::BufferTooSmall)
            &&& reading.next == mark + 9
            &&& reading.payload.len() == 0
        }),
{
    lemma_spelled_text(data, mark + 1, header);
    assert forall|i: int| mark + 1 <= i < mark + 9 implies #[trigger] digit_at(data, i) by {
        assert(spells_byte(data, mark + 1, header, (i - mark - 1) / 2));
    }
    lemma_all_digits(data, mark + 1, mark + 9);
    assert(spells_byte(data, mark + 1, header, 0));
}

/// A record whose header is interrupted is refused: for the character that is no hex
/// digit, behind which reading goes on, or as cut short by the end of the image.
pub proof fn law_broken_header_is_refused(data: Seq<u8>, mark: int, bad: int, room: int)
    requires
        0 <= mark < bad <= data.len(),
        bad < mark + 9,
        forall|i: int|
            mark < i < bad ==> 0x30 <= #[trigger] data[i] <= 0x39 || 0x41 <= data[i] <= 0x46 || 0x61
                <= data[i] <= 0x66,
        bad < data.len() ==> !(0x30 <= data[bad] <= 0x39 || 0x41 <= data[bad] <= 0x46 || 0x61
            <= data[bad] <= 0x66),
    ensures
        ({
            let reading = read_record(data, mark, room);
            &&& reading.outcome == Err::<Record, HexError>(
                if bad < data.len() {
                    HexError::BadDigit
                } else {
                    HexError::Truncated
                },
            )
            &&& reading.next == if bad < data.len() {
                bad + 1
            } else {
                bad
            }
            &&& reading.payload.len() == 0
        }),
{
    lemma_first_bad_is(data, mark + 1, bad, mark + 9);
}

/// A record that is interrupted behind its header is refused in the same way, and what
/// was decoded of its payload up to there is the bytes that its text spells.
pub proof fn law_broken_body_is_refused(
    data: Seq<u8>,
    mark: int,
    bad: int,
    bytes: Seq<u8>,
    room: int,
)
    requires
        0 <= mark,
        mark + 9 <= bad <= data.len(),
        forall|i: int|
            mark < i < bad ==> 0x30 <= #[trigger] data[i] <= 0x39 || 0x41 <= data[i] <= 0x46 || 0x61
                <= data[i] <= 0x66,
        bad < data.len() ==> !(0x30 <= data[bad] <= 0x39 || 0x41 <= data[bad] <= 0x46 || 0x61
            <= data[bad] <= 0x66),
        bytes.len() == (bad - mark - 1) / 2,
        spells(data.subrange(mark + 1, mark + 1 + 2 * bytes.len()), bytes),
        bytes[0] <= room,
        bad < mark + 11 + 2 * bytes[0],
    ensures
        ({
            let reading = read_record(data, mark, room);
            &&& reading.outcome == Err::<Record, HexError>(
                if bad < data.len() {
                    HexError::BadDigit
                } else {
                    HexError::Truncated
                },
            )
            &&& reading.next == if bad < data.len() {
                bad + 1
            } else {
                bad
            }
            &&& reading.payload.len() == bytes.len() - 4
            &&& forall|i: int|
                0 <= i < reading.payload.len() ==> #[trigger] reading.payload[i] == bytes[4 + i]
        }),
{
    let end = mark + 11 + 2 * bytes[0];
    lemma_spelled_text(data, mark + 1, bytes);
    lemma_first_bad_is(data, mark + 1, bad, end);
    lemma_first_bad_split(data, mark + 1, mark + 9, end);
    assert(spells_byte(data, mark + 1, bytes, 0));
    let payload = read_record(data, mark, room).payload;
    assert forall|i: int| 0 <= i < payload.len() implies #[trigger] payload[i] == bytes[4 + i] by {
        assert(spells_byte(data, mark + 1, bytes, 4 + i));
    }
}

/// The first place without a digit is the one behind a stretch of digits.
proof fn lemma_first_bad_is(data: Seq<u8>, pos: int, bad: int, end: int)
    requires
        0 <= pos <= bad <= data.len(),
        bad < end,
        forall|i: int|
            pos <= i < bad ==> 0x30 <= #[trigger] data[i] <= 0x39 || 0x41 <= data[i] <= 0x46 || 0x61
                <= data[i] <= 0x66,
        bad < data.len() ==> !(0x30 <= data[bad] <= 0x39 || 0x41 <= data[bad] <= 0x46 || 0x61
            <= data[bad] <= 0x66),
    ensures
        first_bad(data, pos, end) == bad,
    decreases bad - pos,
{
    if pos < bad {
        lemma_first_bad_is(data, pos + 1, bad, end);
    }
}

/// A record's payload is put at the front of the caller's buffer, and the rest of the
/// buffer is left alone.
pub proof fn law_payload_goes_to_the_front(buffer: Seq<u8>, front: Seq<u8>)
    requires
        front.len() <= buffer.len(),
    ensures
        overlay(buffer, front).len() == buffer.len(),
        forall|i: int|
            0 <= i < buffer.len() ==> #[trigger] overlay(buffer, front)[i] == if i < front.len() {
                front[i]
            } else {
                buffer[i]
            },
{
}

/// A record mark is a colon, and the longest payload has 255 bytes.
pub proof fn law_record_mark_is_a_colon(data: Seq<u8>, pos: int)
    requires
        0 <= pos <= data.len(),
    ensures
        RECORD_MARK == 0x3A,
        MAX_RECORD_PAYLOAD == 255,
        pos <= next_mark(data, pos) <= data.len(),
        next_mark(data, pos) < data.len() ==> data[next_mark(data, pos)] == 0x3A,
        forall|i: int| pos <= i < next_mark(data, pos) ==> #[trigger] data[i] != 0x3A,
{
    law_next_mark_is_first(data, pos);
}

/// A blob passes for Intel HEX exactly if it starts with a colon and holds the text
/// `:00000001FF` somewhere, with either letter of either case.
pub proof fn law_intel_hex_has_an_end_of_file(bytes: Seq<u8>)
    ensures
        intel_hex(bytes) <==> bytes.len() > 0 && bytes[0] == 0x3A && exists|at: int|
            {
                &&& 0 <= at
                &&& at + 11 <= bytes.len()
                &&& #[trigger] bytes[at] == 0x3A
                &&& forall|j: int| at + 1 <= j < at + 8 ==> #[trigger] bytes[j] == 0x30
                &&& bytes[at + 8] == 0x31
                &&& bytes[at + 9] == 0x46 || bytes[at + 9] == 0x66
                &&& bytes[at + 10] == 0x46 || bytes[at + 10] == 0x66
            },
{
    let eof = eof_record();
    if occurs(bytes, eof) {
        let at = choose|at: int| #[trigger] found_at(bytes, eof, at);
        assert(lower(eof[0]) == lower(bytes[at]));
        assert forall|j: int| at + 1 <= j < at + 8 implies #[trigger] bytes[j] == 0x30 by {
            assert(lower(eof[j - at]) == lower(bytes[at + (j - at)]));
        }
        assert(lower(eof[8]) == lower(bytes[at + 8]));
        assert(lower(eof[9]) == lower(bytes[at + 9]));
        assert(lower(eof[10]) == lower(bytes[at + 10]));
        assert(bytes[at] == 0x3A);
    }
    if exists|at: int|
        {
            &&& 0 <= at
            &&& at + 11 <= bytes.len()
            &&& #[trigger] bytes[at] == 0x3A
            &&& forall|j: int| at + 1 <= j < at + 8 ==> #[trigger] bytes[j] == 0x30
            &&& bytes[at + 8] == 0x31
            &&& bytes[at + 9] == 0x46 || bytes[at + 9] == 0x66
            &&& bytes[at + 10] == 0x46 || bytes[at + 10] == 0x66
        } {
        let at = choose|at: int|
            {
                &&& 0 <= at
                &&& at + 11 <= bytes.len()
                &&& #[trigger] bytes[at] == 0x3A
                &&& forall|j: int| at + 1 <= j < at + 8 ==> #[trigger] bytes[j] == 0x30
                &&& bytes[at + 8] == 0x31
                &&& bytes[at + 9] == 0x46 || bytes[at + 9] == 0x66
                &&& bytes[at + 10] == 0x46 || bytes[at + 10] == 0x66
            };
        assert forall|j: int| 0 <= j < eof.len() implies lower(#[trigger] eof[j]) == lower(
            bytes[at + j],
        ) by {
            if 1 <= j < 8 {
                assert(bytes[at + j] == 0x30);
            }
        }
        assert(found_at(bytes, eof, at));
    }
}

/// What counts as a record in Intel HEX form: a mark-free gap, a colon, and digits that
/// spell its length, address, type, payload and checksum, which sum to a multiple of
/// 256. That is all that is asked of it, and all that an image holds for it.
pub proof fn law_written_record_is_intel_hex(written: Written)
    requires
        forall|i: int| 0 <= i < written.gap.len() ==> #[trigger] written.gap[i] != 0x3A,
        written.payload.len() <= 255,
        ({
            let bytes = seq![
                written.payload.len() as u8,
                (written.address / 256) as u8,
                (written.address % 256) as u8,
                written.code,
            ] + written.payload + seq![written.checksum];
            byte_sum(bytes) % 256 == 0 && spells(written.text, bytes)
        }),
    ensures
        written.wf(),
        written.form() == written.gap + seq![0x3Au8] + written.text,
        written.record().address == written.address,
        written.record().len == written.payload.len(),
        written.code == 0 <==> written.record().kind == RecordKind::Data,
        written.code == 1 <==> written.record().kind == RecordKind::Eof,
        written.code > 1 ==> written.record().kind == RecordKind::Other(written.code),
{
    assert(!written.gap.contains(RECORD_MARK));
}

/// An image is its records one after the other, and its tail.
pub proof fn law_image_holds_its_records(first: Written, rest: Seq<Written>, tail: Seq<u8>)
    ensures
        image_of(Seq::empty(), tail) == tail,
        image_of(seq![first] + rest, tail) == first.gap + seq![0x3Au8] + first.text + image_of(
            rest,
            tail,
        ),
{
    assert((seq![first] + rest).drop_first() =~= rest);
}

} // verus!
