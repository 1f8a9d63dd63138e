//! USB identities for the widget's two enumeration states.

use vstd::prelude::*;

verus! {

/// Vendor ID shared by both states.
///
/// This value is self-assigned by the manufacturer and is not a USB-IF
/// allocation, so it must not be treated as globally unique.
pub const VID: u16 = 0x0CB0;

/// Product ID of the bootloader, before firmware is uploaded.
pub const PID_UNLOADED: u16 = 0x0001;

/// Product ID of the running device, after firmware is uploaded.
pub const PID_LOADED: u16 = 0x0002;

/// Which side of the two-stage enumeration a device is on.
#[derive(Debug, Clone, Copy, PartialEq, Eq, Structural)]
pub enum State {
    /// Bootloader present; awaiting a firmware download.
    Unloaded,
    /// Firmware running; ready to stream DMX.
    Loaded,
    /// A `VID` device with a product ID this crate does not recognise.
    Unknown(u16),
}

/// The state that a device of this vendor with product ID `pid` is in.
pub open spec fn state_of(pid: u16) -> State {
    if pid == PID_UNLOADED {
        State::Unloaded
    } else if pid == PID_LOADED {
        State::Loaded
    } else {
        State::Unknown(pid)
    }
}

/// Classify a device from its vendor and product IDs.
///
/// Returns `None` for anything that is not this vendor, so callers can reject
/// unrelated devices before acting on them.
pub fn classify(vid: u16, pid: u16) -> (state: Option<State>)
    ensures
        vid == VID ==> state == Some(state_of(pid)),
        vid != VID ==> state is None,
{
    if vid != VID {
        return None;
    }
    if pid == PID_UNLOADED {
        Some(State::Unloaded)
    } else if pid == PID_LOADED {
        Some(State::Loaded)
    } else {
        Some(State::Unknown(pid))
    }
}

/// No two product IDs share a state: the state tells the product ID back.
pub proof fn law_states_are_distinct(a: u16, b: u16)
    ensures
        state_of(a) == state_of(b) <==> a == b,
{
}

/// A device of this vendor with product ID 1 is unloaded, one with product ID 2 is
/// loaded, and any other is unknown under its own product ID.
pub proof fn law_product_id_tells_the_state(pid: u16)
    ensures
        VID == 0x0CB0,
        PID_UNLOADED == 1,
        PID_LOADED == 2,
        state_of(pid) == State::Unloaded <==> pid == 1,
        state_of(pid) == State::Loaded <==> pid == 2,
        pid == 0 || pid > 2 ==> state_of(pid) == State::Unknown(pid),
{
}

} // verus!
