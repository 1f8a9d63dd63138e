//! High-level driver over a loaded widget, plus state detection.

use vstd::prelude::*;

use crate::dmx;
use crate::dmx::{Universe, DEFAULT_OUT_ENDPOINT};
use crate::error::Error;
use crate::identity;
use crate::identity::{State, VID};
use crate::transport;
use crate::transport::{Request, Transfer, Transport};

verus! {

/// Standard `GET_DESCRIPTOR` request.
pub const GET_DESCRIPTOR: u8 = 0x06;

/// `wValue` selecting the device descriptor (type 1, index 0).
pub const DESC_DEVICE: u16 = 0x0100;

/// `bmRequestType` for a standard device-to-host request.
pub const STANDARD_IN: u8 = 0x80;

/// A device descriptor is fixed at 18 bytes; `idVendor`/`idProduct` live at 8/10.
pub const DEVICE_DESCRIPTOR_LEN: usize = 18;

/// The little-endian 16-bit value at `at`.
pub open spec fn le_u16_at(bytes: Seq<u8>, at: int) -> u16 {
    (bytes[at] + 256 * bytes[at + 1]) as u16
}

/// What a descriptor read of `read` bytes tells about the device.
pub open spec fn identified<E>(read: int, descriptor: Seq<u8>) -> Result<State, Error<E>> {
    if read < DEVICE_DESCRIPTOR_LEN {
        Err(Error::ShortDescriptor)
    } else if le_u16_at(descriptor, 8) != VID {
        Err(Error::NotAWidget)
    } else {
        Ok(identity::state_of(le_u16_at(descriptor, 10)))
    }
}

/// Classify a device from its device descriptor, of which `read` bytes arrived.
pub fn identify<E>(read: usize, descriptor: &[u8; DEVICE_DESCRIPTOR_LEN]) -> (state: Result<
    State,
    Error<E>,
>)
    ensures
        state == identified::<E>(read as int, descriptor@),
{
    if read < DEVICE_DESCRIPTOR_LEN {
        return Err(Error::ShortDescriptor);
    }
    let vid: u16 = descriptor[8] as u16 + 256 * descriptor[9] as u16;
    let pid: u16 = descriptor[10] as u16 + 256 * descriptor[11] as u16;
    match identity::classify(vid, pid) {
        Some(state) => Ok(state),
        None => Err(Error::NotAWidget),
    }
}

/// Read the device descriptor and classify which enumeration state it is in.
///
/// Use this to decide whether a firmware upload is still required before
/// streaming.
pub fn probe<T: Transport>(transport: &mut T) -> (state: Result<State, Error<T::Error>>)
    ensures
        ({
            let before = old(transport).log();
            let after = final(transport).log();
            &&& after.len() == before.len() + 1
            &&& after.drop_last() == before
            &&& after.last() matches Transfer::ControlIn {
                request_type,
                request,
                value,
                index,
                offered,
                filled,
                read,
            }
            &&& request_type == STANDARD_IN
            &&& request == GET_DESCRIPTOR
            &&& value == DESC_DEVICE
            &&& index == 0
            &&& offered == Seq::new(DEVICE_DESCRIPTOR_LEN as nat, |i: int| 0u8)
            &&& state == match read {
                Ok(n) => identified::<T::Error>(n as int, filled),
                Err(e) => Err(Error::Transport(e)),
            }
        }),
{
    let mut descriptor = [0u8; DEVICE_DESCRIPTOR_LEN];
    assert(descriptor@ =~= Seq::new(DEVICE_DESCRIPTOR_LEN as nat, |i: int| 0u8));
    let outcome = transport.control_in(
        STANDARD_IN,
        GET_DESCRIPTOR,
        DESC_DEVICE,
        0,
        &mut descriptor,
    );
    assert(transport.log().drop_last() =~= old(transport).log());
    match outcome {
        Ok(read) => identify(read, &descriptor),
        Err(e) => Err(Error::Transport(e)),
    }
}

/// Vendor mode-command opcode (byte 0 of the command; byte 1 is the mode).
pub const MODE_COMMAND: u8 = 0x01;

/// Bulk OUT endpoint that carries vendor commands: the same single live OUT
/// endpoint the DMX chunks use (see [`crate::dmx::DEFAULT_OUT_ENDPOINT`]).
pub const COMMAND_ENDPOINT: u8 = 0x02;

/// The widget's operating mode, selected with the mode command.
///
/// At power-up the device boots into [`Mode::Stop`]: the RS-485 driver is
/// disabled and the frame engine is off, so it drives nothing in either
/// direction until told to, which is good manners on a shared bus. Streaming DMX
/// therefore requires entering [`Mode::Transmit`] first (see [`Widget::start`]);
/// it is the symmetric partner of [`Mode::Receive`], not an automatic state.
#[derive(Debug, Clone, Copy, PartialEq, Eq, Structural)]
pub enum Mode {
    /// Idle: RS-485 driver disabled, frame engine off. The boot state.
    Stop,
    /// Transmit: asserts the RS-485 driver and runs the DMX frame engine.
    Transmit,
    /// Receive: enables the UART receiver; the driver stays disabled.
    Receive,
}

/// The byte that selects `mode` in the mode command.
pub open spec fn mode_code(mode: Mode) -> u8 {
    match mode {
        Mode::Stop => 0,
        Mode::Transmit => 1,
        Mode::Receive => 2,
    }
}

/// The requests that enter `mode`: the mode command on the command endpoint.
pub open spec fn mode_plan(mode: Mode) -> Seq<Request> {
    seq![Request::Bulk { endpoint: COMMAND_ENDPOINT, data: seq![MODE_COMMAND, mode_code(mode)] }]
}

/// The mode command that enters `mode`.
pub fn mode_command(mode: Mode) -> (command: [u8; 2])
    ensures
        command@ == seq![MODE_COMMAND, mode_code(mode)],
{
    let code: u8 = match mode {
        Mode::Stop => 0,
        Mode::Transmit => 1,
        Mode::Receive => 2,
    };
    let command = [MODE_COMMAND, code];
    assert(command@ =~= seq![MODE_COMMAND, mode_code(mode)]);
    command
}

/// Write one bulk OUT transfer, with a failure reported as the transport's.
pub(crate) fn bulk_write<T: Transport>(transport: &mut T, endpoint: u8, data: &[u8]) -> (result:
    Result<(), Error<T::Error>>)
    ensures
        transport::ran(
            old(transport).log(),
            final(transport).log(),
            seq![Request::Bulk { endpoint, data: data@ }],
            result,
        ),
{
    let ghost before = transport.log();
    let ghost plan = seq![Request::Bulk { endpoint, data: data@ }];
    let outcome = transport.bulk_out(endpoint, data);
    proof {
        assert(before.take(before.len() as int) =~= before);
        transport::lemma_performed_step(before, before, 0, plan, outcome);
        assert(plan.take(1) =~= plan);
    }
    match outcome {
        Ok(()) => Ok(()),
        Err(e) => Err(Error::Transport(e)),
    }
}

/// Write the mode command on the command endpoint.
///
/// Shared by [`Widget`] (transmit) and [`crate::receive::Receiver`] (receive):
/// the device has a single mode register that selects the RS-485 direction, so
/// both ends drive it through this one command.
pub(crate) fn send_mode<T: Transport>(transport: &mut T, mode: Mode) -> (result: Result<
    (),
    Error<T::Error>,
>)
    ensures
        transport::ran(old(transport).log(), final(transport).log(), mode_plan(mode), result),
{
    let command = mode_command(mode);
    bulk_write(transport, COMMAND_ENDPOINT, &command)
}

/// A loaded widget, ready to stream DMX.
///
/// Construct one only for a device that has already re-enumerated as loaded
/// (see [`probe`]); it does not itself upload firmware.
pub struct Widget<T> {
    transport: T,
}

impl<T> Widget<T> {
    /// The wrapped transport.
    pub closed spec fn transport(&self) -> T {
        self.transport
    }
}

impl<T: Transport> Widget<T> {
    /// Wrap a loaded widget's transport.
    pub fn new(transport: T) -> (widget: Self)
        ensures
            widget.transport() == transport,
    {
        Widget { transport }
    }

    /// Enter an operating [`Mode`].
    ///
    /// The device boots idle and drives nothing; you must select a mode before it
    /// does anything on the DMX line.
    pub fn set_mode(&mut self, mode: Mode) -> (result: Result<(), Error<T::Error>>)
        ensures
            transport::ran(
                old(self).transport().log(),
                final(self).transport().log(),
                mode_plan(mode),
                result,
            ),
    {
        send_mode(&mut self.transport, mode)
    }

    /// Enter transmit mode: shorthand for [`set_mode`](Self::set_mode) with
    /// [`Mode::Transmit`].
    ///
    /// Call once before streaming frames with [`send`](Self::send). Without it the
    /// RS-485 driver-enable never goes high and no DMX reaches the wire, however
    /// correct the frames are.
    pub fn start(&mut self) -> (result: Result<(), Error<T::Error>>)
        ensures
            transport::ran(
                old(self).transport().log(),
                final(self).transport().log(),
                mode_plan(Mode::Transmit),
                result,
            ),
    {
        self.set_mode(Mode::Transmit)
    }

    /// Return the device to the idle/stop state (releases the bus).
    pub fn stop(&mut self) -> (result: Result<(), Error<T::Error>>)
        ensures
            transport::ran(
                old(self).transport().log(),
                final(self).transport().log(),
                mode_plan(Mode::Stop),
                result,
            ),
    {
        self.set_mode(Mode::Stop)
    }

    /// Send one universe frame. Call at the desired refresh rate, after
    /// [`start`](Self::start).
    pub fn send(&mut self, universe: &Universe) -> (result: Result<(), Error<T::Error>>)
        ensures
            transport::ran(
                old(self).transport().log(),
                final(self).transport().log(),
                dmx::send_plan(DEFAULT_OUT_ENDPOINT, universe@),
                result,
            ),
    {
        dmx::send(&mut self.transport, DEFAULT_OUT_ENDPOINT, universe)
    }

    /// Recover the wrapped transport.
    pub fn release(self) -> (transport: T)
        ensures
            transport == self.transport(),
    {
        self.transport
    }
}

/// A descriptor identifies a widget exactly when it is whole and carries the
/// vendor's ID, and the product ID says which side of the firmware upload the
/// device is on.
pub proof fn law_descriptor_identifies<E>(read: int, descriptor: Seq<u8>)
    requires
        descriptor.len() == DEVICE_DESCRIPTOR_LEN,
    ensures
        identified::<E>(read, descriptor) is Ok <==> read >= DEVICE_DESCRIPTOR_LEN
            && descriptor[8] == 0xB0 && descriptor[9] == 0x0C,
        identified::<E>(read, descriptor) == Ok::<State, Error<E>>(State::Unloaded) <==> read
            >= DEVICE_DESCRIPTOR_LEN && descriptor.subrange(8, 12) == seq![0xB0u8, 0x0C, 0x01, 0x00],
        identified::<E>(read, descriptor) == Ok::<State, Error<E>>(State::Loaded) <==> read
            >= DEVICE_DESCRIPTOR_LEN && descriptor.subrange(8, 12) == seq![0xB0u8, 0x0C, 0x02, 0x00],
{
    let ids = descriptor.subrange(8, 12);
    assert(ids[0] == descriptor[8] && ids[1] == descriptor[9]);
    assert(ids[2] == descriptor[10] && ids[3] == descriptor[11]);
    let unloaded = seq![0xB0u8, 0x0C, 0x01, 0x00];
    let loaded = seq![0xB0u8, 0x0C, 0x02, 0x00];
    assert(ids == unloaded <==> ids[0] == 0xB0 && ids[1] == 0x0C && ids[2] == 0x01 && ids[3]
        == 0x00) by {
        if ids[0] == 0xB0 && ids[1] == 0x0C && ids[2] == 0x01 && ids[3] == 0x00 {
            assert(ids =~= unloaded);
        }
    }
    assert(ids == loaded <==> ids[0] == 0xB0 && ids[1] == 0x0C && ids[2] == 0x02 && ids[3]
        == 0x00) by {
        if ids[0] == 0xB0 && ids[1] == 0x0C && ids[2] == 0x02 && ids[3] == 0x00 {
            assert(ids =~= loaded);
        }
    }
}

/// What a descriptor tells, for every length and every content: fewer than 18 bytes are
/// too short, another vendor than `0x0CB0` is not a widget, and a widget's product ID
/// stands behind the vendor ID, low byte first.
pub proof fn law_descriptor_tells_vendor_and_product<E>(read: int, descriptor: Seq<u8>)
    requires
        descriptor.len() == 18,
    ensures
        read < 18 <==> identified::<E>(read, descriptor) == Err::<State, Error<E>>(
            Error::ShortDescriptor,
        ),
        read >= 18 && !(descriptor[8] == 0xB0 && descriptor[9] == 0x0C) <==> identified::<E>(
            read,
            descriptor,
        ) == Err::<State, Error<E>>(Error::NotAWidget),
        read >= 18 && descriptor[8] == 0xB0 && descriptor[9] == 0x0C ==> ({
            let pid = descriptor[10] + 0x100 * descriptor[11];
            identified::<E>(read, descriptor) == Ok::<State, Error<E>>(
                if pid == 1 {
                    State::Unloaded
                } else if pid == 2 {
                    State::Loaded
                } else {
                    State::Unknown(pid as u16)
                },
            )
        }),
{
}

/// The request that probing makes is the standard one for the device descriptor, which
/// has 18 bytes.
pub proof fn law_probe_asks_for_the_device_descriptor()
    ensures
        STANDARD_IN == 0x80,
        GET_DESCRIPTOR == 0x06,
        DESC_DEVICE == 0x0100,
        DEVICE_DESCRIPTOR_LEN == 18,
{
}

/// Entering a mode is a single write of two bytes to endpoint `0x02`, the command `0x01`
/// and the mode: 0 to stop, 1 to transmit, 2 to receive. No two modes share a command.
pub proof fn law_mode_is_one_command(mode: Mode, other: Mode)
    ensures
        mode_plan(mode).len() == 1,
        mode_plan(mode)[0] == (Request::Bulk {
            endpoint: 0x02,
            data: seq![
                0x01u8,
                match mode {
                    Mode::Stop => 0u8,
                    Mode::Transmit => 1u8,
                    Mode::Receive => 2u8,
                },
            ],
        }),
        seq![MODE_COMMAND, mode_code(mode)] == mode_plan(mode)[0]->Bulk_data,
        mode_plan(mode) == mode_plan(other) <==> mode == other,
        DEFAULT_OUT_ENDPOINT == 0x02,
{
    if mode_plan(mode) == mode_plan(other) {
        assert(mode_plan(mode)[0]->Bulk_data[1] == mode_plan(other)[0]->Bulk_data[1]);
    }
}

} // verus!
