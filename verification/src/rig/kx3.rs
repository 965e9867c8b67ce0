//! The KX3 transceiver's control words: the `RX;`/`TX;` commands that
//! follow the TNC's push-to-talk requests, and the `;`-terminated line
//! framing of its control port.

use vstd::prelude::*;

verus! {

/// What the rig is asked to do with the transmitter.
#[derive(Clone, Copy, Debug, PartialEq, Eq, Structural)]
pub enum TransmitState {
    Receive,
    Transmit,
}

/// A command for the rig's control port.
#[derive(Clone, Copy, Debug, PartialEq, Eq, Structural)]
pub enum Command {
    SetTransmitState(TransmitState),
}

/// A status word from the rig (kept opaque; the loop only logs it).
#[derive(Clone, Debug, PartialEq, Eq)]
pub enum Update {
    Filler(Vec<u8>),
}

/// The control word of a transmit state: `RX` or `TX`.
pub open spec fn spec_render_transmit(t: TransmitState) -> Seq<u8> {
    match t {
        TransmitState::Receive => seq![0x52u8, 0x58u8],
        TransmitState::Transmit => seq![0x54u8, 0x58u8],
    }
}

/// The wire form of a rig command: its word and the `;` terminator.
pub open spec fn spec_render_command(c: Command) -> Seq<u8> {
    match c {
        Command::SetTransmitState(t) => spec_render_transmit(t) + seq![0x3bu8],
    }
}

impl Command {
    /// The exact bytes this command puts on the serial port.
    pub fn render_wire(&self) -> (r: Vec<u8>)
        ensures
            r@ == spec_render_command(*self),
    {
        let mut out: Vec<u8> = Vec::new();
        match self {
            Command::SetTransmitState(TransmitState::Receive) => {
                out.push(0x52);
                out.push(0x58);
            },
            Command::SetTransmitState(TransmitState::Transmit) => {
                out.push(0x54);
                out.push(0x58);
            },
        }
        out.push(0x3b);
        proof {
            assert(out@ =~= spec_render_command(*self));
        }
        out
    }

    /// The rig command that follows a TNC push-to-talk request.
    pub fn for_transceiver(cmd: crate::modem::vara::TransceiverCommand) -> (r: Command)
        ensures
            r == Command::SetTransmitState(
                match cmd {
                    crate::modem::vara::TransceiverCommand::Transmit => TransmitState::Transmit,
                    crate::modem::vara::TransceiverCommand::Receive => TransmitState::Receive,
                },
            ),
    {
        match cmd {
            crate::modem::vara::TransceiverCommand::Transmit => Command::SetTransmitState(
                TransmitState::Transmit,
            ),
            crate::modem::vara::TransceiverCommand::Receive => Command::SetTransmitState(
                TransmitState::Receive,
            ),
        }
    }
}

} // verus!
