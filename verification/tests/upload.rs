//! The firmware upload.

use dmx_piggy::anchor::{Upload, UploadStep};
use dmx_piggy::firmware::{HexError, MAX_RECORD_PAYLOAD};
use dmx_piggy::{upload, Error, Transport};

/// Records every control write, and fails the one at index `fail_at`.
struct Bootloader {
    writes: Vec<(u16, Vec<u8>)>,
    fail_at: usize,
}

impl Bootloader {
    fn new() -> Self {
        Bootloader { writes: Vec::new(), fail_at: usize::MAX }
    }
}

impl Transport for Bootloader {
    type Error = &'static str;
    fn control_out(
        &mut self,
        request_type: u8,
        request: u8,
        value: u16,
        index: u16,
        data: &[u8],
    ) -> Result<(), &'static str> {
        assert_eq!((request_type, request, index), (0x40, 0xA0, 0));
        if self.writes.len() == self.fail_at {
            return Err("stall");
        }
        self.writes.push((value, data.to_vec()));
        Ok(())
    }
    fn control_in(
        &mut self,
        _: u8,
        _: u8,
        _: u16,
        _: u16,
        _: &mut [u8],
    ) -> Result<usize, &'static str> {
        panic!("an upload does not read");
    }
    fn bulk_in(&mut self, _: u8, _: &mut [u8]) -> Result<usize, &'static str> {
        panic!("an upload does not read");
    }
    fn bulk_out(&mut self, _: u8, _: &[u8]) -> Result<(), &'static str> {
        panic!("an upload uses control transfers only");
    }
}

const IMAGE: &[u8] = b":03000000010203F7\r\n:020000040000FA\r\n:0112340005B4\r\n:00000001FF\r\n:0100000099";

#[test]
fn upload_is_bracketed_by_hold_and_release() {
    let mut bootloader = Bootloader::new();
    assert_eq!(upload(&mut bootloader, IMAGE), Ok(()));
    // The extended-address record is tolerated, and nothing after EOF is read.
    assert_eq!(
        bootloader.writes,
        vec![
            (0x7F92, vec![1]),
            (0x0000, vec![1, 2, 3]),
            (0x1234, vec![5]),
            (0x7F92, vec![0]),
        ]
    );
}

#[test]
fn a_corrupt_record_leaves_the_cpu_held() {
    let image = b":03000000010203F7\r\n:0112340005B5\r\n:00000001FF\r\n";
    let mut bootloader = Bootloader::new();
    assert_eq!(upload(&mut bootloader, image), Err(Error::Hex(HexError::BadChecksum)));
    assert_eq!(bootloader.writes, vec![(0x7F92, vec![1]), (0x0000, vec![1, 2, 3])]);
}

#[test]
fn an_image_without_eof_or_records_is_still_released() {
    let mut bootloader = Bootloader::new();
    assert_eq!(upload(&mut bootloader, b":0112340005B4"), Ok(()));
    assert_eq!(
        bootloader.writes,
        vec![(0x7F92, vec![1]), (0x1234, vec![5]), (0x7F92, vec![0])]
    );
    let mut bootloader = Bootloader::new();
    assert_eq!(upload(&mut bootloader, b""), Ok(()));
    assert_eq!(bootloader.writes, vec![(0x7F92, vec![1]), (0x7F92, vec![0])]);
}

#[test]
fn a_failed_transfer_ends_the_upload() {
    for fail_at in 0..4 {
        let mut bootloader = Bootloader::new();
        bootloader.fail_at = fail_at;
        assert_eq!(upload(&mut bootloader, IMAGE), Err(Error::Transport("stall")));
        assert_eq!(bootloader.writes.len(), fail_at);
    }
}

#[test]
fn upload_steps_can_be_taken_one_by_one() {
    let mut job = Upload::new(b":03000000010203F7\r\n:0100");
    let mut payload = [0u8; MAX_RECORD_PAYLOAD];
    assert_eq!(job.next(&mut payload), UploadStep::Write { address: 0x7F92, len: 1 });
    assert_eq!(payload[0], 1);
    assert_eq!(job.next(&mut payload), UploadStep::Write { address: 0, len: 3 });
    assert_eq!(&payload[..3], &[1, 2, 3]);
    assert_eq!(job.next(&mut payload), UploadStep::Fault(HexError::Truncated));
    assert_eq!(job.next(&mut payload), UploadStep::Fault(HexError::Truncated));

    let mut job = Upload::new(b":00000001FF");
    assert_eq!(job.next(&mut payload), UploadStep::Write { address: 0x7F92, len: 1 });
    assert_eq!(job.next(&mut payload), UploadStep::Write { address: 0x7F92, len: 1 });
    assert_eq!(payload[0], 0);
    assert_eq!(job.next(&mut payload), UploadStep::Done);
    assert_eq!(job.next(&mut payload), UploadStep::Done);
}
