//! Vendor identity queries.

use dmx_piggy::query::{id_from_reply, le_u32, serial_from_reply, RESERVED_UNSAFE_OP};
use dmx_piggy::{read_id, read_serial, Error, Transport};

/// Replays the real 0x82 replies captured from hardware, keyed on the last
/// command byte written to the OUT endpoint.
struct Fake {
    last: u8,
}

impl Transport for Fake {
    type Error = ();
    fn control_out(&mut self, _: u8, _: u8, _: u16, _: u16, _: &[u8]) -> Result<(), ()> {
        Ok(())
    }
    fn control_in(&mut self, _: u8, _: u8, _: u16, _: u16, _: &mut [u8]) -> Result<usize, ()> {
        Ok(0)
    }
    fn bulk_out(&mut self, _: u8, data: &[u8]) -> Result<(), ()> {
        self.last = data[0];
        Ok(())
    }
    fn bulk_in(&mut self, _: u8, buf: &mut [u8]) -> Result<usize, ()> {
        let reply: &[u8] = match self.last {
            0x09 => &[0x09, 0xff, 0x0f, 0x00],
            0x23 => &[0x23, 0xa9, 0x3e, 0x56, 0x01, 0xed, 0x8d],
            _ => &[],
        };
        let n = reply.len().min(buf.len());
        buf[..n].copy_from_slice(&reply[..n]);
        Ok(n)
    }
}

#[test]
fn reads_serial_matching_the_descriptor() {
    let mut t = Fake { last: 0 };
    assert_eq!(read_serial(&mut t).unwrap(), 4095);
}

#[test]
fn reads_the_unique_id() {
    let mut t = Fake { last: 0 };
    assert_eq!(
        read_id(&mut t).unwrap(),
        [0xa9, 0x3e, 0x56, 0x01, 0xed, 0x8d],
    );
}

/// Answers every query with a fixed reply, and checks where queries go.
struct Canned {
    reply: Vec<u8>,
    sent: Vec<u8>,
    fail_out: bool,
    fail_in: bool,
}

impl Canned {
    fn new(reply: &[u8]) -> Self {
        Canned { reply: reply.to_vec(), sent: Vec::new(), fail_out: false, fail_in: false }
    }
}

impl Transport for Canned {
    type Error = &'static str;
    fn control_out(
        &mut self,
        _: u8,
        _: u8,
        _: u16,
        _: u16,
        _: &[u8],
    ) -> Result<(), &'static str> {
        Ok(())
    }
    fn control_in(
        &mut self,
        _: u8,
        _: u8,
        _: u16,
        _: u16,
        _: &mut [u8],
    ) -> Result<usize, &'static str> {
        Ok(0)
    }
    fn bulk_out(&mut self, endpoint: u8, data: &[u8]) -> Result<(), &'static str> {
        assert_eq!(endpoint, 0x02);
        if self.fail_out {
            return Err("out");
        }
        self.sent.extend_from_slice(data);
        Ok(())
    }
    fn bulk_in(&mut self, endpoint: u8, buf: &mut [u8]) -> Result<usize, &'static str> {
        assert_eq!(endpoint, 0x82);
        assert_eq!(buf.len(), 16);
        if self.fail_in {
            return Err("in");
        }
        let n = self.reply.len();
        buf[..n].copy_from_slice(&self.reply);
        Ok(n)
    }
}

#[test]
fn rejects_a_reply_that_does_not_echo_the_opcode() {
    let mut bad = Canned::new(&[0xff]); // wrong opcode echo
    assert!(matches!(read_serial(&mut bad), Err(Error::UnexpectedReply)));
    let mut bad = Canned::new(&[0x09, 1, 2, 3, 4, 5, 6]);
    assert!(matches!(read_id(&mut bad), Err(Error::UnexpectedReply)));
}

#[test]
fn rejects_absent_and_short_replies() {
    assert_eq!(read_serial(&mut Canned::new(&[])), Err(Error::UnexpectedReply));
    assert_eq!(read_id(&mut Canned::new(&[])), Err(Error::UnexpectedReply));
    assert_eq!(
        read_id(&mut Canned::new(&[0x23, 1, 2, 3, 4, 5])),
        Err(Error::UnexpectedReply)
    );
}

#[test]
fn serial_takes_up_to_four_bytes() {
    assert_eq!(read_serial(&mut Canned::new(&[0x09])), Ok(0));
    assert_eq!(read_serial(&mut Canned::new(&[0x09, 0x12])), Ok(0x12));
    assert_eq!(read_serial(&mut Canned::new(&[0x09, 1, 2])), Ok(0x0201));
    assert_eq!(
        read_serial(&mut Canned::new(&[0x09, 0x78, 0x56, 0x34, 0xF2, 0xAA])),
        Ok(0xF2345678)
    );
    for value in [0u32, 1, 255, 256, 65_535, 0xDEAD_BEEF, u32::MAX] {
        let mut reply = [0u8; 16];
        reply[0] = 0x09;
        reply[1..5].copy_from_slice(&value.to_le_bytes());
        assert_eq!(serial_from_reply::<()>(5, &reply), Ok(value));
    }
}

#[test]
fn id_ignores_what_follows_it() {
    let mut reply = [0u8; 16];
    reply[..9].copy_from_slice(&[0x23, 6, 5, 4, 3, 2, 1, 99, 98]);
    assert_eq!(id_from_reply::<()>(9, &reply), Ok([6, 5, 4, 3, 2, 1]));
    assert_eq!(id_from_reply::<()>(6, &reply), Err(Error::UnexpectedReply));
    // A reply that is not ours is refused whatever its length is said to be.
    assert_eq!(serial_from_reply::<()>(17, &reply), Err(Error::UnexpectedReply));
}

#[test]
fn transport_failures_are_passed_on() {
    let mut t = Canned::new(&[0x09, 1]);
    t.fail_out = true;
    assert_eq!(read_serial(&mut t), Err(Error::Transport("out")));
    t.fail_out = false;
    t.fail_in = true;
    assert_eq!(read_serial(&mut t), Err(Error::Transport("in")));
    assert_eq!(read_id(&mut t), Err(Error::Transport("in")));
}

#[test]
fn queries_send_their_opcode_and_never_the_reserved_one() {
    let mut t = Canned::new(&[0x09, 1]);
    let _ = read_serial(&mut t);
    let _ = read_id(&mut t);
    assert_eq!(t.sent, vec![0x09, 0x23]);
    assert!(!t.sent.contains(&RESERVED_UNSAFE_OP));
}

#[test]
fn decoding_takes_four_bytes_and_fills_up_with_zeros() {
    assert_eq!(le_u32(&[]), 0);
    assert_eq!(le_u32(&[0x34]), 0x34);
    assert_eq!(le_u32(&[1, 2, 3]), 0x0003_0201);
    assert_eq!(le_u32(&[1, 2, 3, 0]), le_u32(&[1, 2, 3]));
    assert_eq!(le_u32(&[1, 2, 3, 4, 5, 6]), le_u32(&[1, 2, 3, 4]));
    for value in [0u32, 1, 0x1234_5678, u32::MAX] {
        assert_eq!(le_u32(&value.to_le_bytes()), value);
    }
}
