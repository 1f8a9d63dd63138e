//! The transmit side and state detection.

use dmx_piggy::device::{identify, mode_command, probe};
use dmx_piggy::identity::{classify, State, PID_LOADED, PID_UNLOADED, VID};
use dmx_piggy::{Error, Mode, Transport, Universe, Widget};

/// Captures the last bulk OUT write so a test can inspect the mode command.
struct Recorder {
    endpoint: u8,
    data: [u8; 64],
    len: usize,
    fail: bool,
}

impl Recorder {
    fn new() -> Self {
        Recorder { endpoint: 0, data: [0; 64], len: 0, fail: false }
    }
}

impl Transport for Recorder {
    type Error = ();
    fn control_out(&mut self, _: u8, _: u8, _: u16, _: u16, _: &[u8]) -> Result<(), ()> {
        Ok(())
    }
    fn control_in(&mut self, _: u8, _: u8, _: u16, _: u16, _: &mut [u8]) -> Result<usize, ()> {
        Ok(0)
    }
    fn bulk_in(&mut self, _: u8, _: &mut [u8]) -> Result<usize, ()> {
        Ok(0)
    }
    fn bulk_out(&mut self, endpoint: u8, data: &[u8]) -> Result<(), ()> {
        if self.fail {
            return Err(());
        }
        self.endpoint = endpoint;
        self.len = data.len();
        self.data[..data.len()].copy_from_slice(data);
        Ok(())
    }
}

#[test]
fn start_enters_transmit_mode_on_the_command_endpoint() {
    let mut widget = Widget::new(Recorder::new());
    widget.start().unwrap();
    let rec = widget.release();
    assert_eq!(rec.endpoint, 0x02);
    assert_eq!(&rec.data[..rec.len], &[0x01, 0x01]); // opcode, Mode::Transmit
}

#[test]
fn stop_selects_mode_zero() {
    let mut widget = Widget::new(Recorder::new());
    widget.stop().unwrap();
    let rec = widget.release();
    assert_eq!(&rec.data[..rec.len], &[0x01, 0x00]); // opcode, Mode::Stop
}

#[test]
fn every_mode_has_its_command() {
    assert_eq!(mode_command(Mode::Stop), [0x01, 0x00]);
    assert_eq!(mode_command(Mode::Transmit), [0x01, 0x01]);
    assert_eq!(mode_command(Mode::Receive), [0x01, 0x02]);
    let mut widget = Widget::new(Recorder::new());
    widget.set_mode(Mode::Receive).unwrap();
    let rec = widget.release();
    assert_eq!(&rec.data[..rec.len], &[0x01, 0x02]);
}

#[test]
fn a_failed_command_is_a_transport_error() {
    let mut rec = Recorder::new();
    rec.fail = true;
    let mut widget = Widget::new(rec);
    assert_eq!(widget.start(), Err(Error::Transport(())));
    assert_eq!(widget.send(&Universe::new()), Err(Error::Transport(())));
}

#[test]
fn a_widget_sends_to_the_default_endpoint() {
    let mut universe = Universe::new();
    universe.set(512, 9).unwrap();
    let mut widget = Widget::new(Recorder::new());
    widget.send(&universe).unwrap();
    let rec = widget.release();
    // The last chunk: 24 channels from 488 on, committed.
    assert_eq!(rec.endpoint, 0x02);
    assert_eq!(rec.len, 27);
    assert_eq!(&rec.data[..4], &[0x31, 0xE8, 0x01, 0]);
    assert_eq!(rec.data[26], 9);
}

/// Answers a descriptor read with a fixed descriptor.
struct Bus {
    descriptor: [u8; 18],
    reply: Result<usize, u8>,
    setup: (u8, u8, u16, u16, usize),
}

impl Transport for Bus {
    type Error = u8;
    fn control_out(&mut self, _: u8, _: u8, _: u16, _: u16, _: &[u8]) -> Result<(), u8> {
        Ok(())
    }
    fn control_in(
        &mut self,
        request_type: u8,
        request: u8,
        value: u16,
        index: u16,
        buf: &mut [u8],
    ) -> Result<usize, u8> {
        self.setup = (request_type, request, value, index, buf.len());
        buf.copy_from_slice(&self.descriptor);
        self.reply
    }
    fn bulk_in(&mut self, _: u8, _: &mut [u8]) -> Result<usize, u8> {
        Ok(0)
    }
    fn bulk_out(&mut self, _: u8, _: &[u8]) -> Result<(), u8> {
        Ok(())
    }
}

fn bus(ids: [u8; 4], reply: Result<usize, u8>) -> Bus {
    let mut descriptor = [0xEEu8; 18];
    descriptor[8..12].copy_from_slice(&ids);
    Bus { descriptor, reply, setup: (0, 0, 0, 0, 0) }
}

#[test]
fn probe_reads_the_device_descriptor_and_classifies_it() {
    let mut unloaded = bus([0xB0, 0x0C, 0x01, 0x00], Ok(18));
    assert_eq!(probe(&mut unloaded), Ok(State::Unloaded));
    assert_eq!(unloaded.setup, (0x80, 0x06, 0x0100, 0, 18));
    assert_eq!(probe(&mut bus([0xB0, 0x0C, 0x02, 0x00], Ok(18))), Ok(State::Loaded));
    assert_eq!(
        probe(&mut bus([0xB0, 0x0C, 0x34, 0x12], Ok(18))),
        Ok(State::Unknown(0x1234))
    );
}

#[test]
fn probe_reports_each_failure() {
    assert_eq!(
        probe(&mut bus([0xB0, 0x0C, 0x01, 0x00], Ok(17))),
        Err(Error::ShortDescriptor)
    );
    assert_eq!(probe(&mut bus([0x0C, 0xB0, 0x01, 0x00], Ok(18))), Err(Error::NotAWidget));
    assert_eq!(
        probe(&mut bus([0xB0, 0x0C, 0x01, 0x00], Err(7))),
        Err(Error::Transport(7))
    );
}

#[test]
fn identify_works_without_a_transport() {
    let descriptor = bus([0xB0, 0x0C, 0x02, 0x00], Ok(18)).descriptor;
    assert_eq!(identify::<()>(18, &descriptor), Ok(State::Loaded));
    assert_eq!(identify::<()>(0, &descriptor), Err(Error::ShortDescriptor));
}

#[test]
fn classify_tells_the_states_apart() {
    assert_eq!(classify(VID, PID_UNLOADED), Some(State::Unloaded));
    assert_eq!(classify(VID, PID_LOADED), Some(State::Loaded));
    assert_eq!(classify(VID, 0x0003), Some(State::Unknown(3)));
    assert_eq!(classify(0x04B4, PID_UNLOADED), None);
}
