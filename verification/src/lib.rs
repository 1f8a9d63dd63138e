//! Driver for the Flying Pig Systems / High End "USB DMX Widget Mk3"
//! (Cypress EZ-USB AN2131).
//!
//! The widget holds no firmware of its own, so operating it is a two-stage
//! affair:
//!
//! 1. the device appears as a bootloader ([`identity::PID_UNLOADED`]); upload a
//!    firmware image into its RAM with [`upload`];
//! 2. it drops off the bus and re-enumerates as the loaded device
//!    ([`identity::PID_LOADED`]); stream DMX universes to it with
//!    [`device::Widget`], or capture them with [`receive::Receiver`].
//!
//! The firmware image is not distributed with this crate. USB host I/O is
//! abstracted behind [`transport::Transport`]. Every decision of the protocol is
//! also available without a transport (see [`anchor::Upload`],
//! [`dmx::pack_chunk`], [`device::identify`], [`query::serial_from_reply`] and
//! [`receive::Reassembler`]), so that a caller whose transfers are awaited rather
//! than blocking can run the same verified steps.

pub mod anchor;
pub mod device;
pub mod dmx;
pub mod error;
pub mod firmware;
pub mod identity;
pub mod query;
pub mod receive;
pub mod receive_laws;
pub mod transport;

pub use crate::anchor::upload;
pub use crate::device::{Mode, Widget};
pub use crate::dmx::Universe;
pub use crate::error::Error;
pub use crate::query::{read_id, read_serial};
pub use crate::receive::{Receiver, RxEvent, RxEventKind, RxStats};
pub use crate::transport::Transport;
