# DMX Piggy

A verified driver for the Flying Pig Systems / High End HOG 3PC USB DMX Widget: a
Cypress EZ-USB AN2131 that turns a USB connection into one DMX-512 universe.

The widget has no firmware of its own. Freshly plugged in it is a bootloader
(`0x0CB0:0x0001`); once an Intel HEX image has been uploaded into its RAM it comes
back as the loaded device (`0x0CB0:0x0002`), which transmits or receives DMX. The
firmware is not part of this project: bring your own.

## Layout

- `src/` is the library. Verus proves every function in it against its contract.
  - `transport`: the `Transport` trait to implement over a USB host stack, and the
    log of transfers over which the driver's contracts are stated.
  - `firmware`: reading Intel HEX records. `anchor`: the upload.
  - `identity`, `device`: telling the two device states apart, operating modes,
    and `Widget` for transmitting.
  - `dmx`: the 512-channel `Universe` and its chunked transmission.
  - `query`: serial number and unique ID.
  - `receive`: reassembly of captured frames, and `Receiver`.
    `receive_laws` states what holds of the receive path as a whole.
- `tests/` runs the library against scripted transports.
- `app/` drives the widget on host stacks whose transfers are awaited. It performs
  the transfers that the library's steps call for.

Proof functions whose names start with `law_` state properties that span several
functions: that an upload brackets its writes between holding and releasing the CPU,
that a universe arrives in the firmware's buffer as it was sent, that a received
frame is delivered channel for channel and without its trailer, that idle reads do not
matter, that a run of records in an image is read back as it was written, that the
reserved command is never sent.

## Use

```rust
match probe(&mut transport)? {
    State::Unloaded => {
        upload(&mut transport, FIRMWARE)?;
        // wait for the device to re-enumerate, and rebind `transport`
    }
    State::Loaded => {}
    State::Unknown(pid) => panic!("unexpected product id {pid:#06x}"),
}

let mut widget = Widget::new(transport);
widget.start()?;          // enter transmit mode (required before sending)
let mut universe = Universe::new();
universe.set(1, 255)?;    // channel 1 to full
widget.send(&universe)?;  // repeat at about 40 Hz
```
