//! The VARA TNC control channel: the commands the client issues, their
//! exact wire rendering, the unsolicited status lines the TNC sends,
//! and the session controller that pairs each issued command with the
//! `OK`/`WRONG` reply the TNC owes it, in first-in-first-out order.

use vstd::prelude::*;
use crate::types::is_digit_byte;
use crate::types::station_pattern;
use crate::types::StationId;
use crate::types::upper_seq;

verus! {

/// Whether the remote station has registered with the TNC.
#[derive(Clone, Copy, Debug, PartialEq, Eq, Structural)]
pub enum Registration {
    Unregistered,
    Registered,
}

/// How the TNC listens for incoming calls.
#[derive(Clone, Copy, Debug, PartialEq, Eq, Structural)]
pub enum ListenMode {
    Disable,
    CQ,
    Enable,
}

/// The TNC's payload compression setting.
#[derive(Clone, Copy, Debug, PartialEq, Eq, Structural)]
pub enum CompressionMode {
    Off,
    Text,
    Files,
}

/// The TNC's bandwidth setting, in hertz.
#[derive(Clone, Copy, Debug, PartialEq, Eq, Structural)]
pub enum BandwidthMode {
    Narrow,
    Wide,
    Tactical,
}

/// The TNC's verdict on one issued command: the `OK` or `WRONG` line.
#[derive(Clone, Copy, Debug, PartialEq, Eq, Structural)]
pub enum CommandResult {
    Okay,
    Wrong,
}

/// What the rig should do with the transmitter.
#[derive(Clone, Copy, Debug, PartialEq, Eq, Structural)]
pub enum TransceiverCommand {
    Receive,
    Transmit,
}

/// Whether the channel sounds occupied.
#[derive(Clone, Copy, Debug, PartialEq, Eq, Structural)]
pub enum BusyState {
    NotBusy,
    Busy,
}

/// The callsigns the station answers to: the primary and any aliases.
#[derive(Clone, Debug, PartialEq, Eq)]
pub struct MyCallSigns(pub StationId, pub Vec<StationId>);

/// The digipeater path of a connect request.
#[derive(Clone, Debug, PartialEq, Eq)]
pub enum ConnectPath {
    Direct,
    OneHop { digipeater: StationId },
    TwoHops { first: StationId, second: StationId },
}

/// A connect request: who calls, whom, and through which path.
#[derive(Clone, Debug, PartialEq, Eq)]
pub struct ConnectCommand {
    pub origin: StationId,
    pub target: StationId,
    pub path: ConnectPath,
}

/// A command for the TNC's control channel.
#[derive(Clone, Debug, PartialEq, Eq)]
pub enum Command {
    Listen(ListenMode),
    Connect(ConnectCommand),
    Disconnect,
    Abort,
    SetCall(MyCallSigns),
    SetCompression(CompressionMode),
    SetBandwidth(BandwidthMode),
}

/// The link state, from the client's point of view.
#[derive(Clone, Debug, PartialEq, Eq)]
pub enum ConnectionStateOwned {
    Disconnected,
    Pending,
    Canceled,
    Connected { my_station: StationId, other_station: StationId },
}

impl ConnectionStateOwned {
    /// Whether a link is up.
    pub fn is_connected(&self) -> (r: bool)
        ensures
            r == (self is Connected),
    {
        match self {
            ConnectionStateOwned::Connected { .. } => true,
            _ => false,
        }
    }

    /// Whether no link exists or is being set up.
    pub fn is_disconnected(&self) -> (r: bool)
        ensures
            r == (self is Disconnected),
    {
        match self {
            ConnectionStateOwned::Disconnected => true,
            _ => false,
        }
    }
}

/// How a connect request resolves once the first connection-state
/// change after its `OK` arrives.
#[derive(Clone, Copy, Debug, PartialEq, Eq, Structural)]
pub enum ConnectResolution {
    /// The link is up: the request succeeded.
    Established,
    /// The TNC fell back to disconnected: the request failed.
    Refused,
    /// Any other state: the request failed with an unexpected state.
    Unexpected,
}

impl ConnectionStateOwned {
    /// Resolve a pending connect request against the state the TNC
    /// reported: success exactly on `Connected`, failure on
    /// `Disconnected`, and an unexpected-state failure otherwise.
    pub fn connect_resolution(&self) -> (r: ConnectResolution)
        ensures
            r == (match self {
                ConnectionStateOwned::Connected { .. } => ConnectResolution::Established,
                ConnectionStateOwned::Disconnected => ConnectResolution::Refused,
                _ => ConnectResolution::Unexpected,
            }),
    {
        match self {
            ConnectionStateOwned::Connected { .. } => ConnectResolution::Established,
            ConnectionStateOwned::Disconnected => ConnectResolution::Refused,
            _ => ConnectResolution::Unexpected,
        }
    }
}

/// A CQ call frame.
#[derive(Clone, Debug, PartialEq, Eq)]
pub struct CQFrame {
    pub cq_station: StationId,
    pub via: VaraCQPath,
}

/// Over which service a CQ call goes out.
#[derive(Clone, Debug, PartialEq, Eq)]
pub enum VaraCQPath {
    Satellite,
    HF(BandwidthMode),
    FM(VaraFMPath),
}

/// The FM digipeater path of a CQ call.
#[derive(Clone, Debug, PartialEq, Eq)]
pub enum VaraFMPath {
    Direct,
    OneHop { digipeater: StationId },
    TwoHops { first_digipeater: StationId, second_digipeater: StationId },
}

/// An unsolicited status line from the TNC.
#[derive(Clone, Debug, PartialEq, Eq)]
pub enum Update {
    Heartbeat,
    Buffer { bytes_remaining: usize },
    Busy(BusyState),
    Connection(ConnectionStateOwned),
    TransceiverControl(TransceiverCommand),
    Registered { my_call: StationId },
    RemoteRegistration(Registration),
}

/// Any line the TNC sends: a command verdict or a status update.
#[derive(Clone, Debug, PartialEq, Eq)]
pub enum TncResponse {
    Update(Update),
    CommandResult(CommandResult),
}

// ---------------------------------------------------------------------
// Wire rendering: upper-case, space-separated, CR-terminated lines.
/// `LISTEN` argument bytes.
pub open spec fn spec_render_listen(m: ListenMode) -> Seq<u8> {
    match m {
        ListenMode::Disable => seq![0x4fu8, 0x46u8, 0x46u8],  // OFF
        ListenMode::CQ => seq![0x43u8, 0x51u8],  // CQ
        ListenMode::Enable => seq![0x4fu8, 0x4eu8],  // ON
    }
}

/// `COMPRESSION` argument bytes.
pub open spec fn spec_render_compression(m: CompressionMode) -> Seq<u8> {
    match m {
        CompressionMode::Off => seq![0x4fu8, 0x46u8, 0x46u8],  // OFF
        CompressionMode::Text => seq![0x54u8, 0x45u8, 0x58u8, 0x54u8],  // TEXT
        CompressionMode::Files => seq![0x46u8, 0x49u8, 0x4cu8, 0x45u8, 0x53u8],  // FILES
    }
}

/// `BW` argument bytes: the bandwidth in hertz.
pub open spec fn spec_render_bandwidth(m: BandwidthMode) -> Seq<u8> {
    match m {
        BandwidthMode::Narrow => seq![0x35u8, 0x30u8, 0x30u8],  // 500
        BandwidthMode::Wide => seq![0x32u8, 0x33u8, 0x30u8, 0x30u8],  // 2300
        BandwidthMode::Tactical => seq![0x32u8, 0x37u8, 0x35u8, 0x30u8],  // 2750
    }
}

/// The aliases of a `MYCALL` line, each preceded by a space.
pub open spec fn spec_render_aliases(ids: Seq<StationId>) -> Seq<u8>
    decreases ids.len(),
{
    if ids.len() == 0 {
        Seq::empty()
    } else {
        seq![0x20u8] + ids[0]@ + spec_render_aliases(ids.skip(1))
    }
}

/// A `MYCALL` argument: the primary callsign and the aliases.
pub open spec fn spec_render_mycalls(c: MyCallSigns) -> Seq<u8> {
    c.0@ + spec_render_aliases(c.1@)
}

/// A connect path: nothing, or ` via` and the digipeaters.
pub open spec fn spec_render_path(p: ConnectPath) -> Seq<u8> {
    match p {
        ConnectPath::Direct => Seq::empty(),
        // " via "
        ConnectPath::OneHop { digipeater } => seq![
            0x20u8,
            0x76u8,
            0x69u8,
            0x61u8,
            0x20u8,
        ] + digipeater@,
        ConnectPath::TwoHops { first, second } => seq![0x20u8, 0x76u8, 0x69u8, 0x61u8, 0x20u8]
            + first@ + seq![0x20u8] + second@,
    }
}

/// A `CONNECT` argument: origin, target, path.
pub open spec fn spec_render_connect(c: ConnectCommand) -> Seq<u8> {
    c.origin@ + seq![0x20u8] + c.target@ + spec_render_path(c.path)
}

/// A whole command line, without the terminating CR.
pub open spec fn spec_render_command(c: Command) -> Seq<u8> {
    match c {
        // "LISTEN "
        Command::Listen(m) => seq![0x4cu8, 0x49u8, 0x53u8, 0x54u8, 0x45u8, 0x4eu8, 0x20u8]
            + spec_render_listen(m),
        // "CONNECT "
        Command::Connect(cc) => seq![0x43u8, 0x4fu8, 0x4eu8, 0x4eu8, 0x45u8, 0x43u8, 0x54u8, 0x20u8]
            + spec_render_connect(cc),
        // "DISCONNECT"
        Command::Disconnect => seq![
            0x44u8,
            0x49u8,
            0x53u8,
            0x43u8,
            0x4fu8,
            0x4eu8,
            0x4eu8,
            0x45u8,
            0x43u8,
            0x54u8,
        ],
        // "ABORT"
        Command::Abort => seq![0x41u8, 0x42u8, 0x4fu8, 0x52u8, 0x54u8],
        // "MYCALL "
        Command::SetCall(mc) => seq![0x4du8, 0x59u8, 0x43u8, 0x41u8, 0x4cu8, 0x4cu8, 0x20u8]
            + spec_render_mycalls(mc),
        // "COMPRESSION "
        Command::SetCompression(m) => seq![
            0x43u8,
            0x4fu8,
            0x4du8,
            0x50u8,
            0x52u8,
            0x45u8,
            0x53u8,
            0x53u8,
            0x49u8,
            0x4fu8,
            0x4eu8,
            0x20u8,
        ] + spec_render_compression(m),
        // "BW"
        Command::SetBandwidth(m) => seq![0x42u8, 0x57u8] + spec_render_bandwidth(m),
    }
}

/// The wire form of a command: the line and the terminating CR.
pub open spec fn spec_render_wire(c: Command) -> Seq<u8> {
    spec_render_command(c) + seq![0x0du8]
}

/// Append every byte of `src` to `out`.
fn push_bytes(out: &mut Vec<u8>, src: &Vec<u8>)
    ensures
        final(out)@ == old(out)@ + src@,
{
    let mut k: usize = 0;
    while k < src.len()
        invariant
            k <= src@.len(),
            out@ == old(out)@ + src@.subrange(0, k as int),
        decreases src@.len() - k,
    {
        out.push(src[k]);
        proof {
            assert(old(out)@ + src@.subrange(0, k + 1) =~= (old(out)@ + src@.subrange(
                0,
                k as int,
            )).push(src@[k as int]));
        }
        k = k + 1;
    }
    proof {
        assert(src@.subrange(0, src@.len() as int) =~= src@);
    }
}

impl Command {
    /// The exact bytes this command puts on the control channel,
    /// including the terminating CR.
    #[verifier::rlimit(50)]
    pub fn render_wire(&self) -> (r: Vec<u8>)
        ensures
            r@ == spec_render_wire(*self),
    {
        let mut out: Vec<u8> = Vec::new();
        match self {
            Command::Listen(m) => {
                out.push(0x4c);
                out.push(0x49);
                out.push(0x53);
                out.push(0x54);
                out.push(0x45);
                out.push(0x4e);
                out.push(0x20);
                match m {
                    ListenMode::Disable => {
                        out.push(0x4f);
                        out.push(0x46);
                        out.push(0x46);
                    },
                    ListenMode::CQ => {
                        out.push(0x43);
                        out.push(0x51);
                    },
                    ListenMode::Enable => {
                        out.push(0x4f);
                        out.push(0x4e);
                    },
                }
                proof {
                    assert(out@ =~= spec_render_command(*self));
                }
            },
            Command::Connect(cc) => {
                out.push(0x43);
                out.push(0x4f);
                out.push(0x4e);
                out.push(0x4e);
                out.push(0x45);
                out.push(0x43);
                out.push(0x54);
                out.push(0x20);
                let ghost pre = out@;
                push_bytes(&mut out, cc.origin.as_bytes());
                out.push(0x20);
                push_bytes(&mut out, cc.target.as_bytes());
                let ghost pre2 = out@;
                proof {
                    assert(pre2 =~= pre + cc.origin@ + seq![0x20u8] + cc.target@);
                }
                match &cc.path {
                    ConnectPath::Direct => {
                        proof {
                            assert(out@ =~= spec_render_command(*self));
                        }
                    },
                    ConnectPath::OneHop { digipeater } => {
                        out.push(0x20);
                        out.push(0x76);
                        out.push(0x69);
                        out.push(0x61);
                        out.push(0x20);
                        push_bytes(&mut out, digipeater.as_bytes());
                        proof {
                            assert(out@ =~= spec_render_command(*self));
                        }
                    },
                    ConnectPath::TwoHops { first, second } => {
                        out.push(0x20);
                        out.push(0x76);
                        out.push(0x69);
                        out.push(0x61);
                        out.push(0x20);
                        push_bytes(&mut out, first.as_bytes());
                        out.push(0x20);
                        push_bytes(&mut out, second.as_bytes());
                        proof {
                            assert(out@ =~= spec_render_command(*self));
                        }
                    },
                }
            },
            Command::Disconnect => {
                out.push(0x44);
                out.push(0x49);
                out.push(0x53);
                out.push(0x43);
                out.push(0x4f);
                out.push(0x4e);
                out.push(0x4e);
                out.push(0x45);
                out.push(0x43);
                out.push(0x54);
                proof {
                    assert(out@ =~= spec_render_command(*self));
                }
            },
            Command::Abort => {
                out.push(0x41);
                out.push(0x42);
                out.push(0x4f);
                out.push(0x52);
                out.push(0x54);
                proof {
                    assert(out@ =~= spec_render_command(*self));
                }
            },
            Command::SetCall(mc) => {
                out.push(0x4d);
                out.push(0x59);
                out.push(0x43);
                out.push(0x41);
                out.push(0x4c);
                out.push(0x4c);
                out.push(0x20);
                push_bytes(&mut out, mc.0.as_bytes());
                let ghost pre = out@;
                let mut k: usize = 0;
                while k < mc.1.len()
                    invariant
                        k <= mc.1@.len(),
                        out@ + spec_render_aliases(mc.1@.skip(k as int)) == pre
                            + spec_render_aliases(mc.1@.skip(0)),
                    decreases mc.1@.len() - k,
                {
                    let ghost ob = out@;
                    proof {
                        assert(mc.1@.skip(k as int)[0] == mc.1@[k as int]);
                        assert(mc.1@.skip(k as int).skip(1) =~= mc.1@.skip(k as int + 1));
                    }
                    out.push(0x20);
                    push_bytes(&mut out, mc.1[k].as_bytes());
                    proof {
                        assert(out@ + spec_render_aliases(mc.1@.skip(k as int + 1)) =~= ob
                            + spec_render_aliases(mc.1@.skip(k as int)));
                    }
                    k = k + 1;
                }
                proof {
                    assert(spec_render_aliases(mc.1@.skip(mc.1@.len() as int)) =~= Seq::<
                        u8,
                    >::empty());
                    assert(out@ + Seq::<u8>::empty() =~= out@);
                    assert(mc.1@.skip(0) =~= mc.1@);
                    assert(out@ =~= spec_render_command(*self));
                }
            },
            Command::SetCompression(m) => {
                out.push(0x43);
                out.push(0x4f);
                out.push(0x4d);
                out.push(0x50);
                out.push(0x52);
                out.push(0x45);
                out.push(0x53);
                out.push(0x53);
                out.push(0x49);
                out.push(0x4f);
                out.push(0x4e);
                out.push(0x20);
                match m {
                    CompressionMode::Off => {
                        out.push(0x4f);
                        out.push(0x46);
                        out.push(0x46);
                    },
                    CompressionMode::Text => {
                        out.push(0x54);
                        out.push(0x45);
                        out.push(0x58);
                        out.push(0x54);
                    },
                    CompressionMode::Files => {
                        out.push(0x46);
                        out.push(0x49);
                        out.push(0x4c);
                        out.push(0x45);
                        out.push(0x53);
                    },
                }
                proof {
                    assert(out@ =~= spec_render_command(*self));
                }
            },
            Command::SetBandwidth(m) => {
                out.push(0x42);
                out.push(0x57);
                match m {
                    BandwidthMode::Narrow => {
                        out.push(0x35);
                        out.push(0x30);
                        out.push(0x30);
                    },
                    BandwidthMode::Wide => {
                        out.push(0x32);
                        out.push(0x33);
                        out.push(0x30);
                        out.push(0x30);
                    },
                    BandwidthMode::Tactical => {
                        out.push(0x32);
                        out.push(0x37);
                        out.push(0x35);
                        out.push(0x30);
                    },
                }
                proof {
                    assert(out@ =~= spec_render_command(*self));
                }
            },
        }
        out.push(0x0d);
        proof {
            assert(out@ =~= spec_render_wire(*self));
        }
        out
    }
}

// ---------------------------------------------------------------------
// Parsing the TNC's control lines.
/// `s` starts with `t`.
pub open spec fn starts_with(s: Seq<u8>, t: Seq<u8>) -> bool {
    s.len() >= t.len() && s.subrange(0, t.len() as int) == t
}

/// The rest of the line from `i` reads `ON` or `OFF`.
pub open spec fn spec_on_off(s: Seq<u8>, i: int) -> Option<bool> {
    if s.skip(i) =~= seq![0x4fu8, 0x4eu8] {
        Some(true)
    } else if s.skip(i) =~= seq![0x4fu8, 0x46u8, 0x46u8] {
        Some(false)
    } else {
        None
    }
}

/// A callsign token: three to seven upper-case letters or digits.
pub open spec fn spec_callsign_tok(s: Seq<u8>, i: int) -> Option<(Seq<u8>, int)> {
    let e = crate::types::upper_alnum_run_end(s, i);
    let e2 = if e > i + 7 {
        i + 7
    } else {
        e
    };
    if e2 - i < 3 {
        None
    } else {
        Some((s.subrange(i, e2), e2))
    }
}

/// The ghost mirror of a parsed connection state.
pub ghost enum SpecConn {
    Disconnected,
    Pending,
    Canceled,
    Connected { me: Seq<u8>, other: Seq<u8> },
}

/// The ghost mirror of a parsed status line.
pub ghost enum SpecUpdate {
    Heartbeat,
    Buffer { bytes_remaining: usize },
    Busy(BusyState),
    Connection(SpecConn),
    TransceiverControl(TransceiverCommand),
    Registered { my_call: Seq<u8> },
}

/// The ghost mirror of a whole parsed line.
pub ghost enum SpecResponse {
    Upd(SpecUpdate),
    Verdict(CommandResult),
}

/// Parse one `\r`-stripped status line. A callsign in a `CONNECTED` or
/// `REGISTERED` line must also show the callsign shape, so that the
/// stations the controller stores are valid; a line whose token does
/// not is dropped like any other unparseable line.
pub open spec fn spec_parse_update(s: Seq<u8>) -> Option<SpecUpdate> {
    if s =~= seq![0x49u8, 0x41u8, 0x4du8, 0x41u8, 0x4cu8, 0x49u8, 0x56u8, 0x45u8] {
        // IAMALIVE
        Some(SpecUpdate::Heartbeat)
    } else if starts_with(s, seq![0x42u8, 0x55u8, 0x46u8, 0x46u8, 0x45u8, 0x52u8, 0x20u8]) {
        // BUFFER <n>
        let d = s.skip(7);
        if d.len() >= 1 && (forall|q: int| 0 <= q < d.len() ==> is_digit_byte(#[trigger] d[q]))
            && crate::fbb::dec_value(d) <= usize::MAX {
            Some(SpecUpdate::Buffer { bytes_remaining: crate::fbb::dec_value(d) as usize })
        } else {
            None
        }
    } else if starts_with(s, seq![0x42u8, 0x55u8, 0x53u8, 0x59u8, 0x20u8]) {
        // BUSY ON|OFF
        match spec_on_off(s, 5) {
            Some(true) => Some(SpecUpdate::Busy(BusyState::Busy)),
            Some(false) => Some(SpecUpdate::Busy(BusyState::NotBusy)),
            None => None,
        }
    } else if starts_with(s, seq![0x50u8, 0x54u8, 0x54u8, 0x20u8]) {
        // PTT ON|OFF
        match spec_on_off(s, 4) {
            Some(true) => Some(SpecUpdate::TransceiverControl(TransceiverCommand::Transmit)),
            Some(false) => Some(SpecUpdate::TransceiverControl(TransceiverCommand::Receive)),
            None => None,
        }
    } else if s =~= seq![
        0x44u8,
        0x49u8,
        0x53u8,
        0x43u8,
        0x4fu8,
        0x4eu8,
        0x4eu8,
        0x45u8,
        0x43u8,
        0x54u8,
        0x45u8,
        0x44u8,
    ] {
        // DISCONNECTED
        Some(SpecUpdate::Connection(SpecConn::Disconnected))
    } else if s =~= seq![0x50u8, 0x45u8, 0x4eu8, 0x44u8, 0x49u8, 0x4eu8, 0x47u8] {
        // PENDING
        Some(SpecUpdate::Connection(SpecConn::Pending))
    } else if s =~= seq![
        0x43u8,
        0x41u8,
        0x4eu8,
        0x43u8,
        0x45u8,
        0x4cu8,
        0x50u8,
        0x45u8,
        0x4eu8,
        0x44u8,
        0x49u8,
        0x4eu8,
        0x47u8,
    ] {
        // CANCELPENDING
        Some(SpecUpdate::Connection(SpecConn::Canceled))
    } else if starts_with(
        s,
        seq![0x43u8, 0x4fu8, 0x4eu8, 0x4eu8, 0x45u8, 0x43u8, 0x54u8, 0x45u8, 0x44u8, 0x20u8],
    ) {
        // CONNECTED <me> <other>
        match spec_callsign_tok(s, 10) {
            None => None,
            Some((a, j)) => {
                if j < s.len() && s[j] == 0x20 {
                    match spec_callsign_tok(s, j + 1) {
                        None => None,
                        Some((b, j2)) => {
                            if j2 == s.len() && station_pattern(a) && station_pattern(b) {
                                Some(
                                    SpecUpdate::Connection(SpecConn::Connected { me: a, other: b }),
                                )
                            } else {
                                None
                            }
                        },
                    }
                } else {
                    None
                }
            },
        }
    } else if starts_with(
        s,
        seq![
            0x52u8,
            0x45u8,
            0x47u8,
            0x49u8,
            0x53u8,
            0x54u8,
            0x45u8,
            0x52u8,
            0x45u8,
            0x44u8,
            0x20u8,
        ],
    ) {
        // REGISTERED <call>
        match spec_callsign_tok(s, 11) {
            None => None,
            Some((a, j)) => {
                if j == s.len() && station_pattern(a) {
                    Some(SpecUpdate::Registered { my_call: a })
                } else {
                    None
                }
            },
        }
    } else {
        None
    }
}

/// Parse one `\r`-stripped control line: `OK` or `WRONG` exactly, else
/// a status line. A line that starts like a verdict but carries more is
/// dropped, never read as a status line.
pub open spec fn spec_parse_response(s: Seq<u8>) -> Option<SpecResponse> {
    if starts_with(s, seq![0x4fu8, 0x4bu8]) {
        // OK
        if s.len() == 2 {
            Some(SpecResponse::Verdict(CommandResult::Okay))
        } else {
            None
        }
    } else if starts_with(s, seq![0x57u8, 0x52u8, 0x4fu8, 0x4eu8, 0x47u8]) {
        // WRONG
        if s.len() == 5 {
            Some(SpecResponse::Verdict(CommandResult::Wrong))
        } else {
            None
        }
    } else {
        match spec_parse_update(s) {
            None => None,
            Some(u) => Some(SpecResponse::Upd(u)),
        }
    }
}

/// The views of a parsed connection state.
pub open spec fn conn_view(c: ConnectionStateOwned) -> SpecConn {
    match c {
        ConnectionStateOwned::Disconnected => SpecConn::Disconnected,
        ConnectionStateOwned::Pending => SpecConn::Pending,
        ConnectionStateOwned::Canceled => SpecConn::Canceled,
        ConnectionStateOwned::Connected { my_station, other_station } => SpecConn::Connected {
            me: my_station@,
            other: other_station@,
        },
    }
}

/// The views of a parsed status line.
pub open spec fn update_view(u: Update) -> Option<SpecUpdate> {
    match u {
        Update::Heartbeat => Some(SpecUpdate::Heartbeat),
        Update::Buffer { bytes_remaining } => Some(SpecUpdate::Buffer { bytes_remaining }),
        Update::Busy(b) => Some(SpecUpdate::Busy(b)),
        Update::Connection(c) => Some(SpecUpdate::Connection(conn_view(c))),
        Update::TransceiverControl(t) => Some(SpecUpdate::TransceiverControl(t)),
        Update::Registered { my_call } => Some(SpecUpdate::Registered { my_call: my_call@ }),
        Update::RemoteRegistration(_) => None,
    }
}

/// The views of a parsed line.
pub open spec fn response_view(r: TncResponse) -> Option<SpecResponse> {
    match r {
        TncResponse::CommandResult(v) => Some(SpecResponse::Verdict(v)),
        TncResponse::Update(u) => match update_view(u) {
            None => None,
            Some(su) => Some(SpecResponse::Upd(su)),
        },
    }
}

/// `line` starts with `p`.
fn prefix_at(line: &Vec<u8>, p: &Vec<u8>) -> (r: bool)
    ensures
        r == starts_with(line@, p@),
{
    if line.len() < p.len() {
        return false;
    }
    let mut k: usize = 0;
    while k < p.len()
        invariant
            k <= p@.len() <= line@.len(),
            forall|q: int| 0 <= q < k ==> line@[q] == p@[q],
        decreases p@.len() - k,
    {
        if line[k] != p[k] {
            proof {
                assert(line@.subrange(0, p@.len() as int)[k as int] == line@[k as int]);
            }
            return false;
        }
        k = k + 1;
    }
    proof {
        assert(line@.subrange(0, p@.len() as int) =~= p@);
    }
    true
}

/// A callsign token at `i`: three to seven upper-case letters or
/// digits.
fn callsign_tok(line: &Vec<u8>, i: usize) -> (r: Option<(Vec<u8>, usize)>)
    requires
        i <= line@.len(),
    ensures
        match r {
            Some((t, j)) => spec_callsign_tok(line@, i as int) == Some((t@, j as int)) && i < j
                <= line@.len(),
            None => spec_callsign_tok(line@, i as int) is None,
        },
{
    let mut e: usize = i;
    while e < line.len() && e - i < 7 && ((0x41 <= line[e] && line[e] <= 0x5a) || (0x30 <= line[e]
        && line[e] <= 0x39))
        invariant
            i <= e <= line@.len(),
            e - i <= 7,
            forall|q: int|
                i <= q < e ==> crate::types::is_upper_byte(#[trigger] line@[q])
                    || is_digit_byte(line@[q]),
            crate::types::upper_alnum_run_end(line@, e as int) == crate::types::upper_alnum_run_end(
                line@,
                i as int,
            ),
        decreases line@.len() - e,
    {
        e = e + 1;
    }
    proof {
        if (e as int) < line@.len() && e - i < 7 {
            assert(crate::types::upper_alnum_run_end(line@, e as int) == e);
        }
        if e == line@.len() {
            assert(crate::types::upper_alnum_run_end(line@, e as int) == e);
        }
        lemma_run_end_at_least(line@, i as int, e as int);
    }
    if e - i < 3 {
        return None;
    }
    let mut t: Vec<u8> = Vec::new();
    let mut k: usize = i;
    while k < e
        invariant
            i <= k <= e <= line@.len(),
            t@ =~= line@.subrange(i as int, k as int),
        decreases e - k,
    {
        t.push(line[k]);
        k = k + 1;
    }
    proof {
        assert(t@ =~= line@.subrange(i as int, e as int));
    }
    Some((t, e))
}

/// The alphanumeric scan never goes backwards.
proof fn lemma_run_end_ge(s: Seq<u8>, i: int)
    ensures
        crate::types::upper_alnum_run_end(s, i) >= i,
    decreases s.len() - i,
{
    if !(i < 0 || i >= s.len() || !(crate::types::is_upper_byte(s[i]) || is_digit_byte(s[i]))) {
        lemma_run_end_ge(s, i + 1);
    }
}

/// When everything before `e` is alphanumeric, the scan from `i`
/// reaches at least `e`.
proof fn lemma_run_end_at_least(s: Seq<u8>, i: int, e: int)
    requires
        0 <= i <= e <= s.len(),
        forall|q: int|
            i <= q < e ==> crate::types::is_upper_byte(#[trigger] s[q]) || is_digit_byte(s[q]),
    ensures
        crate::types::upper_alnum_run_end(s, i) >= e,
    decreases e - i,
{
    if i < e {
        lemma_run_end_at_least(s, i + 1, e);
    } else {
        lemma_run_end_ge(s, i);
    }
}

/// Parse the decimal byte count of a `BUFFER` line: the whole rest of
/// the line, at least one digit, fitting the machine's word.
fn parse_usize_line(line: &Vec<u8>, i: usize) -> (r: Option<usize>)
    requires
        i <= line@.len(),
    ensures
        ({
            let d = line@.skip(i as int);
            match r {
                Some(v) => d.len() >= 1 && (forall|q: int|
                    0 <= q < d.len() ==> is_digit_byte(#[trigger] d[q])) && crate::fbb::dec_value(d)
                    == v,
                None => !(d.len() >= 1 && (forall|q: int|
                    0 <= q < d.len() ==> is_digit_byte(#[trigger] d[q])) && crate::fbb::dec_value(d)
                    <= usize::MAX),
            }
        }),
{
    let ghost d = line@.skip(i as int);
    if i >= line.len() {
        return None;
    }
    let mut value: u128 = 0;
    let mut overflow: bool = false;
    let mut k: usize = i;
    while k < line.len()
        invariant
            i <= k <= line@.len(),
            d == line@.skip(i as int),
            forall|q: int| i <= q < k ==> is_digit_byte(#[trigger] line@[q]),
            !overflow ==> value == crate::fbb::dec_value(line@.subrange(i as int, k as int))
                && value <= usize::MAX,
            overflow ==> crate::fbb::dec_value(line@.subrange(i as int, k as int)) > usize::MAX,
        decreases line@.len() - k,
    {
        let b = line[k];
        if !(0x30 <= b && b <= 0x39) {
            proof {
                assert(d[k - i] == line@[k as int]);
            }
            return None;
        }
        proof {
            assert(line@.subrange(i as int, k + 1).drop_last() =~= line@.subrange(
                i as int,
                k as int,
            ));
            assert(line@.subrange(i as int, k + 1).last() == line@[k as int]);
        }
        if overflow {
        } else {
            value = value * 10 + (b - 0x30) as u128;
            if value > usize::MAX as u128 {
                overflow = true;
            }
        }
        k = k + 1;
    }
    proof {
        assert(line@.subrange(i as int, line@.len() as int) =~= d);
        assert(forall|q: int| 0 <= q < d.len() ==> #[trigger] d[q] == line@[i + q]);
    }
    if overflow {
        return None;
    }
    Some(value as usize)
}

/// Parse one `\r`-stripped control line into a verdict or an update.
pub fn tnc_response(line: &Vec<u8>) -> (r: Option<TncResponse>)
    ensures
        match r {
            Some(resp) => response_view(resp) == spec_parse_response(line@) && response_view(
                resp,
            ) is Some,
            None => spec_parse_response(line@) is None,
        },
{
    let ok_tag = vec![0x4fu8, 0x4bu8];
    let wrong_tag = vec![0x57u8, 0x52u8, 0x4fu8, 0x4eu8, 0x47u8];
    if prefix_at(line, &ok_tag) {
        if line.len() == 2 {
            return Some(TncResponse::CommandResult(CommandResult::Okay));
        }
        return None;
    }
    if prefix_at(line, &wrong_tag) {
        if line.len() == 5 {
            return Some(TncResponse::CommandResult(CommandResult::Wrong));
        }
        return None;
    }
    match tnc_update(line) {
        None => None,
        Some(u) => Some(TncResponse::Update(u)),
    }
}

/// Parse one `\r`-stripped status line.
pub fn tnc_update(line: &Vec<u8>) -> (r: Option<Update>)
    ensures
        match r {
            Some(u) => update_view(u) == spec_parse_update(line@) && update_view(u) is Some,
            None => spec_parse_update(line@) is None,
        },
{
    let iamalive = vec![0x49u8, 0x41u8, 0x4du8, 0x41u8, 0x4cu8, 0x49u8, 0x56u8, 0x45u8];
    let buffer_tag = vec![0x42u8, 0x55u8, 0x46u8, 0x46u8, 0x45u8, 0x52u8, 0x20u8];
    let busy_tag = vec![0x42u8, 0x55u8, 0x53u8, 0x59u8, 0x20u8];
    let ptt_tag = vec![0x50u8, 0x54u8, 0x54u8, 0x20u8];
    let disconnected = vec![
        0x44u8,
        0x49u8,
        0x53u8,
        0x43u8,
        0x4fu8,
        0x4eu8,
        0x4eu8,
        0x45u8,
        0x43u8,
        0x54u8,
        0x45u8,
        0x44u8,
    ];
    let pending = vec![0x50u8, 0x45u8, 0x4eu8, 0x44u8, 0x49u8, 0x4eu8, 0x47u8];
    let cancelpending = vec![
        0x43u8,
        0x41u8,
        0x4eu8,
        0x43u8,
        0x45u8,
        0x4cu8,
        0x50u8,
        0x45u8,
        0x4eu8,
        0x44u8,
        0x49u8,
        0x4eu8,
        0x47u8,
    ];
    let connected_tag = vec![
        0x43u8,
        0x4fu8,
        0x4eu8,
        0x4eu8,
        0x45u8,
        0x43u8,
        0x54u8,
        0x45u8,
        0x44u8,
        0x20u8,
    ];
    let registered_tag = vec![
        0x52u8,
        0x45u8,
        0x47u8,
        0x49u8,
        0x53u8,
        0x54u8,
        0x45u8,
        0x52u8,
        0x45u8,
        0x44u8,
        0x20u8,
    ];

    if crate::types::bytes_eq(line, &iamalive) {
        return Some(Update::Heartbeat);
    }
    if prefix_at(line, &buffer_tag) {
        let v = match parse_usize_line(line, 7) {
            None => {
                return None;
            },
            Some(v) => v,
        };
        proof {
            assert(line@.skip(7).len() >= 1);
        }
        return Some(Update::Buffer { bytes_remaining: v });
    }
    if prefix_at(line, &busy_tag) {
        return match on_off_rest(line, 5) {
            Some(true) => Some(Update::Busy(BusyState::Busy)),
            Some(false) => Some(Update::Busy(BusyState::NotBusy)),
            None => None,
        };
    }
    if prefix_at(line, &ptt_tag) {
        return match on_off_rest(line, 4) {
            Some(true) => Some(Update::TransceiverControl(TransceiverCommand::Transmit)),
            Some(false) => Some(Update::TransceiverControl(TransceiverCommand::Receive)),
            None => None,
        };
    }
    if crate::types::bytes_eq(line, &disconnected) {
        return Some(Update::Connection(ConnectionStateOwned::Disconnected));
    }
    if crate::types::bytes_eq(line, &pending) {
        return Some(Update::Connection(ConnectionStateOwned::Pending));
    }
    if crate::types::bytes_eq(line, &cancelpending) {
        return Some(Update::Connection(ConnectionStateOwned::Canceled));
    }
    if prefix_at(line, &connected_tag) {
        let (a, j) = match callsign_tok(line, 10) {
            None => {
                return None;
            },
            Some(t) => t,
        };
        if j >= line.len() || line[j] != 0x20 {
            return None;
        }
        let (b, j2) = match callsign_tok(line, j + 1) {
            None => {
                return None;
            },
            Some(t) => t,
        };
        if j2 != line.len() {
            return None;
        }
        let me = match StationId::from_bytes(&a) {
            Err(_) => {
                return None;
            },
            Ok(id) => id,
        };
        let other = match StationId::from_bytes(&b) {
            Err(_) => {
                return None;
            },
            Ok(id) => id,
        };
        proof {
            lemma_callsign_tok_upper(line@, 10);
            lemma_callsign_tok_upper(line@, j + 1);
        }
        return Some(
            Update::Connection(
                ConnectionStateOwned::Connected { my_station: me, other_station: other },
            ),
        );
    }
    if prefix_at(line, &registered_tag) {
        let (a, j) = match callsign_tok(line, 11) {
            None => {
                return None;
            },
            Some(t) => t,
        };
        if j != line.len() {
            return None;
        }
        let call = match StationId::from_bytes(&a) {
            Err(_) => {
                return None;
            },
            Ok(id) => id,
        };
        proof {
            lemma_callsign_tok_upper(line@, 11);
        }
        return Some(Update::Registered { my_call: call });
    }
    None
}

/// The alphanumeric scan stops at the end of the line at the latest.
proof fn lemma_run_end_le(s: Seq<u8>, i: int)
    requires
        0 <= i <= s.len(),
    ensures
        crate::types::upper_alnum_run_end(s, i) <= s.len(),
    decreases s.len() - i,
{
    if !(i < 0 || i >= s.len() || !(crate::types::is_upper_byte(s[i]) || is_digit_byte(s[i]))) {
        lemma_run_end_le(s, i + 1);
    }
}

/// Every byte the alphanumeric scan passed over is an upper-case
/// letter or a digit.
proof fn lemma_run_chars(s: Seq<u8>, i: int)
    ensures
        forall|q: int|
            i <= q < crate::types::upper_alnum_run_end(s, i) ==> crate::types::is_upper_byte(
                #[trigger] s[q],
            ) || is_digit_byte(s[q]),
    decreases s.len() - i,
{
    if !(i < 0 || i >= s.len() || !(crate::types::is_upper_byte(s[i]) || is_digit_byte(s[i]))) {
        lemma_run_chars(s, i + 1);
    }
}

/// A callsign token holds no lower-case letter, so upper-casing leaves
/// it as it is.
proof fn lemma_callsign_tok_upper(s: Seq<u8>, i: int)
    requires
        spec_callsign_tok(s, i) is Some,
    ensures
        upper_seq((spec_callsign_tok(s, i)->0).0) == (spec_callsign_tok(s, i)->0).0,
{
    lemma_run_chars(s, i);
    assert(0 <= i < s.len());
    lemma_run_end_le(s, i);
    let t = (spec_callsign_tok(s, i)->0).0;
    assert forall|q: int| 0 <= q < t.len() implies upper_seq(t)[q] == t[q] by {
        assert(t[q] == s[i + q]);
        assert(upper_seq(t)[q] == crate::types::upper_byte(t[q]));
    }
    assert(upper_seq(t) =~= t);
}

/// The rest of the line from `i` reads `ON` or `OFF`.
fn on_off_rest(line: &Vec<u8>, i: usize) -> (r: Option<bool>)
    requires
        i <= line@.len(),
    ensures
        r == spec_on_off(line@, i as int),
{
    let on = vec![0x4fu8, 0x4eu8];
    let off = vec![0x4fu8, 0x46u8, 0x46u8];
    if line.len() - i == 2 && prefix_ignoring(line, i, &on) {
        proof {
            assert(line@.skip(i as int) =~= on@);
        }
        Some(true)
    } else if line.len() - i == 3 && prefix_ignoring(line, i, &off) {
        proof {
            assert(line@.skip(i as int) =~= off@);
        }
        Some(false)
    } else {
        proof {
            if line@.skip(i as int) =~= seq![0x4fu8, 0x4eu8] {
                assert(line@[i as int] == 0x4f && line@[i + 1] == 0x4e);
                assert(line@.len() - i == 2);
            }
            if line@.skip(i as int) =~= seq![0x4fu8, 0x46u8, 0x46u8] {
                assert(line@[i as int] == 0x4f && line@[i + 1] == 0x46 && line@[i + 2] == 0x46);
                assert(line@.len() - i == 3);
            }
        }
        None
    }
}

// ---------------------------------------------------------------------
// The session controller: pure state, fed by the I/O loop around it.
/// A control line was empty or unparseable; the session cannot go on.
#[derive(Clone, Copy, Debug, PartialEq, Eq, Structural)]
pub struct ProtocolMismatch;

/// The latest value of every independently observed TNC attribute.
#[derive(Clone, Debug, PartialEq, Eq)]
pub struct TncStatus {
    pub busy_state: BusyState,
    pub buffer_bytes_remaining: usize,
    pub registered_calls: Vec<StationId>,
    pub heartbeats: u64,
    pub connection: ConnectionStateOwned,
    pub transceiver_control: TransceiverCommand,
    pub remote_registration: Registration,
}

/// Ghost mirror of the status snapshot.
#[verifier::ext_equal]
pub ghost struct StatusModel {
    pub busy: BusyState,
    pub buffer: usize,
    pub registered: Seq<Seq<u8>>,
    pub heartbeats: u64,
    pub connection: SpecConn,
    pub transceiver: TransceiverCommand,
    pub remote: Registration,
}

/// The byte views of a list of callsigns.
pub open spec fn calls_view(calls: Seq<StationId>) -> Seq<Seq<u8>> {
    calls.map(|i: int, id: StationId| id@)
}

impl View for TncStatus {
    type V = StatusModel;

    open spec fn view(&self) -> StatusModel {
        StatusModel {
            busy: self.busy_state,
            buffer: self.buffer_bytes_remaining,
            registered: calls_view(self.registered_calls@),
            heartbeats: self.heartbeats,
            connection: conn_view(self.connection),
            transceiver: self.transceiver_control,
            remote: self.remote_registration,
        }
    }
}

/// Add a callsign to the registered set, unless it is already there.
pub open spec fn spec_insert_call(calls: Seq<Seq<u8>>, c: Seq<u8>) -> Seq<Seq<u8>> {
    if exists|k: int| 0 <= k < calls.len() && calls[k] == c {
        calls
    } else {
        calls.push(c)
    }
}

/// Fold one status line into the snapshot: for each attribute, the
/// most recent value wins.
pub open spec fn spec_apply_update(st: StatusModel, u: SpecUpdate) -> StatusModel {
    match u {
        SpecUpdate::Heartbeat => StatusModel {
            heartbeats: if st.heartbeats < u64::MAX {
                (st.heartbeats + 1) as u64
            } else {
                st.heartbeats
            },
            ..st
        },
        SpecUpdate::Buffer { bytes_remaining } => StatusModel { buffer: bytes_remaining, ..st },
        SpecUpdate::Busy(b) => StatusModel { busy: b, ..st },
        SpecUpdate::Connection(c) => StatusModel { connection: c, ..st },
        SpecUpdate::TransceiverControl(t) => StatusModel { transceiver: t, ..st },
        SpecUpdate::Registered { my_call } => StatusModel {
            registered: spec_insert_call(st.registered, my_call),
            ..st
        },
    }
}

/// First index at or after `i` holding a carriage return, or the end.
pub open spec fn cr_find(s: Seq<u8>, i: int) -> int
    decreases s.len() - i,
{
    if i < 0 || i >= s.len() || s[i] == 0x0d {
        i
    } else {
        cr_find(s, i + 1)
    }
}

/// Consume every complete line of `buf`: verdicts are collected in
/// order, status lines are folded into the snapshot, the trailing
/// partial line is kept. An empty or unparseable line stops the
/// session (`false`); what was folded before it stays folded, and
/// nothing is collected.
pub open spec fn spec_lines(st: StatusModel, buf: Seq<u8>, acc: Seq<CommandResult>) -> (
    bool,
    StatusModel,
    Seq<u8>,
    Seq<CommandResult>,
)
    decreases buf.len(),
{
    let p = cr_find(buf, 0);
    if p >= buf.len() {
        (true, st, buf, acc)
    } else if p <= 0 {
        (false, st, buf, acc)
    } else {
        let line = buf.subrange(0, p);
        match spec_parse_response(line) {
            None => (false, st, buf, acc),
            Some(SpecResponse::Verdict(v)) => spec_lines(st, buf.skip(p + 1), acc.push(v)),
            Some(SpecResponse::Upd(u)) => spec_lines(spec_apply_update(st, u), buf.skip(p + 1), acc),
        }
    }
}

/// Add to a drop counter without wrapping past its top.
pub open spec fn sat_add64(a: u64, n: int) -> u64 {
    if a + n <= u64::MAX {
        (a + n) as u64
    } else {
        u64::MAX
    }
}

/// Pair collected verdicts with the pending reply tokens, oldest
/// first; verdicts beyond the queue are counted as dropped.
pub open spec fn spec_pair(
    pending: Seq<u64>,
    rs: Seq<CommandResult>,
    acc: Seq<(u64, CommandResult)>,
) -> (Seq<(u64, CommandResult)>, Seq<u64>, int)
    decreases rs.len(),
{
    if rs.len() == 0 {
        (acc, pending, 0)
    } else if pending.len() == 0 {
        let rec = spec_pair(pending, rs.skip(1), acc);
        (rec.0, rec.1, rec.2 + 1)
    } else {
        spec_pair(pending.skip(1), rs.skip(1), acc.push((pending[0], rs[0])))
    }
}

/// Replies are handed out in submission order: while the queue lasts,
/// the `k`-th verdict goes to the `k`-th pending token.
pub proof fn lemma_controller_fifo(pending: Seq<u64>, rs: Seq<CommandResult>)
    ensures
        ({
            let out = spec_pair(pending, rs, Seq::empty()).0;
            &&& out.len() == if rs.len() <= pending.len() {
                rs.len()
            } else {
                pending.len()
            }
            &&& forall|k: int| 0 <= k < out.len() ==> #[trigger] out[k] == (pending[k], rs[k])
        }),
    decreases rs.len(),
{
    lemma_pair_general(pending, rs, Seq::empty());
    let out = spec_pair(pending, rs, Seq::empty()).0;
    let n = if rs.len() <= pending.len() {
        rs.len() as int
    } else {
        pending.len() as int
    };
    assert forall|k: int| 0 <= k < out.len() implies #[trigger] out[k] == (pending[k], rs[k]) by {
        assert(out[0 + k] == (pending[k], rs[k]));
    }
}

/// The pairing fold appends to its accumulator exactly the zip of the
/// queue and the verdicts.
proof fn lemma_pair_general(pending: Seq<u64>, rs: Seq<CommandResult>, acc: Seq<(u64, CommandResult)>)
    ensures
        ({
            let out = spec_pair(pending, rs, acc).0;
            let n = if rs.len() <= pending.len() {
                rs.len() as int
            } else {
                pending.len() as int
            };
            &&& out.len() == acc.len() + n
            &&& forall|k: int| 0 <= k < acc.len() ==> #[trigger] out[k] == acc[k]
            &&& forall|k: int|
                0 <= k < n ==> #[trigger] out[acc.len() + k] == (pending[k], rs[k])
        }),
    decreases rs.len(),
{
    if rs.len() == 0 {
    } else if pending.len() == 0 {
        lemma_pair_general(pending, rs.skip(1), acc);
    } else {
        lemma_pair_general(pending.skip(1), rs.skip(1), acc.push((pending[0], rs[0])));
        let out = spec_pair(pending, rs, acc).0;
        let n = if rs.len() <= pending.len() {
            rs.len() as int
        } else {
            pending.len() as int
        };
        assert forall|k: int| 0 <= k < n implies #[trigger] out[acc.len() + k] == (
            pending[k],
            rs[k],
        ) by {
            if k > 0 {
                assert(out[acc.push((pending[0], rs[0])).len() + (k - 1)] == (
                    pending.skip(1)[k - 1],
                    rs.skip(1)[k - 1],
                ));
            }
        }
    }
}

/// Within a region free of carriage returns that ends at one (or at
/// the buffer's end), the scan finds exactly that position.
proof fn lemma_cr_find_skip(s: Seq<u8>, i: int, p: int)
    requires
        0 <= i <= p <= s.len(),
        forall|q: int| i <= q < p ==> s[q] != 0x0d,
        p == s.len() || s[p] == 0x0d,
    ensures
        cr_find(s.skip(i), 0) == p - i,
{
    lemma_cr_find_from(s.skip(i), 0, p - i);
}

/// The scan on any sequence, spelled out by induction.
proof fn lemma_cr_find_from(s: Seq<u8>, i: int, p: int)
    requires
        0 <= i <= p <= s.len(),
        forall|q: int| i <= q < p ==> s[q] != 0x0d,
        p == s.len() || s[p] == 0x0d,
    ensures
        cr_find(s, i) == p,
    decreases p - i,
{
    if i < p {
        lemma_cr_find_from(s, i + 1, p);
    }
}

/// The session controller: the status snapshot, the FIFO of pending
/// reply tokens, and the partial control line not yet terminated.
#[derive(Clone, Debug, PartialEq, Eq)]
pub struct TncController {
    pub status: TncStatus,
    pending: Vec<u64>,
    line_buffer: Vec<u8>,
    dropped_replies: u64,
}

/// Ghost mirror of the whole controller.
#[verifier::ext_equal]
pub ghost struct CtrlModel {
    pub st: StatusModel,
    pub pending: Seq<u64>,
    pub buf: Seq<u8>,
    pub dropped: u64,
}

impl View for TncController {
    type V = CtrlModel;

    closed spec fn view(&self) -> CtrlModel {
        CtrlModel {
            st: self.status@,
            pending: self.pending@,
            buf: self.line_buffer@,
            dropped: self.dropped_replies,
        }
    }
}

impl TncController {
    /// A fresh controller: disconnected, channel clear, empty buffer,
    /// nothing registered and nothing pending.
    pub fn new() -> (r: TncController)
        ensures
            r@.st == (StatusModel {
                busy: BusyState::NotBusy,
                buffer: 0,
                registered: Seq::empty(),
                heartbeats: 0,
                connection: SpecConn::Disconnected,
                transceiver: TransceiverCommand::Receive,
                remote: Registration::Unregistered,
            }),
            r@.pending == Seq::<u64>::empty(),
            r@.buf == Seq::<u8>::empty(),
            r@.dropped == 0,
    {
        let r = TncController {
            status: TncStatus {
                busy_state: BusyState::NotBusy,
                buffer_bytes_remaining: 0,
                registered_calls: Vec::new(),
                heartbeats: 0,
                connection: ConnectionStateOwned::Disconnected,
                transceiver_control: TransceiverCommand::Receive,
                remote_registration: Registration::Unregistered,
            },
            pending: Vec::new(),
            line_buffer: Vec::new(),
            dropped_replies: 0,
        };
        proof {
            assert(r@.st.registered =~= Seq::<Seq<u8>>::empty());
        }
        r
    }

    /// Submit a command: its reply token joins the queue, and the bytes
    /// to put on the wire are returned.
    pub fn submit(&mut self, cmd: &Command, token: u64) -> (wire: Vec<u8>)
        ensures
            wire@ == spec_render_wire(*cmd),
            final(self)@.pending == old(self)@.pending.push(token),
            final(self)@.st == old(self)@.st,
            final(self)@.buf == old(self)@.buf,
            final(self)@.dropped == old(self)@.dropped,
    {
        self.pending.push(token);
        cmd.render_wire()
    }

    /// Feed bytes read from the control socket. Complete lines are
    /// consumed: status lines update the snapshot, and each `OK` or
    /// `WRONG` resolves the oldest pending token, in submission order.
    /// An empty or unparseable line fails the session: the snapshot
    /// keeps what was already folded, but the buffer and queue are left
    /// as they were, and no replies are handed out.
    #[verifier::rlimit(100)]
    pub fn ingest(&mut self, bytes: &Vec<u8>) -> (r: Result<
        Vec<(u64, CommandResult)>,
        ProtocolMismatch,
    >)
        ensures
            ({
                let full = old(self)@.buf + bytes@;
                let l = spec_lines(old(self)@.st, full, Seq::empty());
                match r {
                    Ok(pairs) => {
                        let p = spec_pair(old(self)@.pending, l.3, Seq::empty());
                        &&& l.0
                        &&& final(self)@.st == l.1
                        &&& final(self)@.buf == l.2
                        &&& pairs@ == p.0
                        &&& final(self)@.pending == p.1
                        &&& final(self)@.dropped == sat_add64(old(self)@.dropped, p.2)
                    },
                    Err(_) => {
                        &&& !l.0
                        &&& final(self)@.st == l.1
                        &&& final(self)@.buf == full
                        &&& final(self)@.pending == old(self)@.pending
                        &&& final(self)@.dropped == old(self)@.dropped
                    },
                }
            }),
    {
        push_bytes(&mut self.line_buffer, bytes);
        let ghost full = self.line_buffer@;
        let ghost st0 = self.status@;
        let ghost total = spec_lines(st0, full, Seq::empty());

        let mut done: usize = 0;
        let mut results: Vec<CommandResult> = Vec::new();
        proof {
            assert(full.skip(0) =~= full);
        }
        loop
            invariant_except_break
                done <= self.line_buffer@.len(),
                self.line_buffer@ == full,
                full == old(self)@.buf + bytes@,
                st0 == old(self)@.st,
                self@.pending == old(self)@.pending,
                self@.dropped == old(self)@.dropped,
                total == spec_lines(st0, full, Seq::empty()),
                spec_lines(self.status@, full.skip(done as int), results@) == total,
            ensures
                done <= self.line_buffer@.len(),
                self.line_buffer@ == full,
                full == old(self)@.buf + bytes@,
                st0 == old(self)@.st,
                self@.pending == old(self)@.pending,
                self@.dropped == old(self)@.dropped,
                total == spec_lines(st0, full, Seq::empty()),
                spec_lines(self.status@, full.skip(done as int), results@) == total,
                cr_find(full.skip(done as int), 0) >= full.skip(done as int).len(),
            decreases self.line_buffer@.len() - done,
        {
            // find the next carriage return
            let mut p: usize = done;
            while p < self.line_buffer.len() && self.line_buffer[p] != 0x0d
                invariant
                    done <= p <= self.line_buffer@.len(),
                    self.line_buffer@ == full,
                    forall|q: int| done <= q < p ==> full[q] != 0x0d,
                decreases self.line_buffer@.len() - p,
            {
                p = p + 1;
            }
            proof {
                lemma_cr_find_skip(full, done as int, p as int);
            }
            if p >= self.line_buffer.len() {
                break;
            }
            if p == done {
                return Err(ProtocolMismatch);
            }
            let mut line: Vec<u8> = Vec::new();
            let mut k: usize = done;
            while k < p
                invariant
                    done <= k <= p <= self.line_buffer@.len(),
                    self.line_buffer@ == full,
                    line@ =~= full.subrange(done as int, k as int),
                decreases p - k,
            {
                line.push(self.line_buffer[k]);
                k = k + 1;
            }
            proof {
                assert(line@ =~= full.subrange(done as int, p as int));
                assert(full.skip(done as int).subrange(0, p - done) =~= full.subrange(
                    done as int,
                    p as int,
                ));
                assert(full.skip(done as int).skip(p - done + 1) =~= full.skip(p + 1 as int));
            }
            match tnc_response(&line) {
                None => {
                    return Err(ProtocolMismatch);
                },
                Some(TncResponse::CommandResult(v)) => {
                    results.push(v);
                },
                Some(TncResponse::Update(u)) => {
                    self.apply_update(u);
                },
            }
            done = p + 1;
        }

        // drop the consumed prefix, keep the partial tail
        let mut rest: Vec<u8> = Vec::new();
        let mut k: usize = done;
        while k < self.line_buffer.len()
            invariant
                done <= k <= self.line_buffer@.len(),
                self.line_buffer@ == full,
                rest@ =~= full.subrange(done as int, k as int),
            decreases self.line_buffer@.len() - k,
        {
            rest.push(self.line_buffer[k]);
            k = k + 1;
        }
        proof {
            assert(rest@ =~= full.skip(done as int));
        }
        self.line_buffer = rest;

        // resolve pending tokens, oldest first
        let mut pairs: Vec<(u64, CommandResult)> = Vec::new();
        let mut ri: usize = 0;
        let ghost pend0 = self.pending@;
        let ghost drop0 = self.dropped_replies;
        let ghost stend = self.status@;
        let ghost rs = results@;
        let ghost ptotal = spec_pair(pend0, rs, Seq::empty());
        proof {
            assert(rs.skip(0) =~= rs);
        }
        while ri < results.len()
            invariant
                ri <= results@.len(),
                rs == results@,
                ptotal == spec_pair(pend0, rs, Seq::empty()),
                self.line_buffer@ == full.skip(done as int),
                self.status@ == stend,
                spec_pair(self.pending@, rs.skip(ri as int), pairs@).0 == ptotal.0,
                spec_pair(self.pending@, rs.skip(ri as int), pairs@).1 == ptotal.1,
                spec_pair(self.pending@, rs.skip(ri as int), pairs@).2 <= ptotal.2,
                self@.dropped == sat_add64(
                    drop0,
                    ptotal.2 - spec_pair(self.pending@, rs.skip(ri as int), pairs@).2,
                ),
            decreases results@.len() - ri,
        {
            proof {
                assert(rs.skip(ri as int)[0] == rs[ri as int]);
                assert(rs.skip(ri as int).skip(1) =~= rs.skip(ri as int + 1));
            }
            let v = results[ri];
            if self.pending.len() > 0 {
                let ghost pprev = self.pending@;
                let t = self.pending.remove(0);
                pairs.push((t, v));
                proof {
                    assert(self.pending@ =~= pprev.skip(1));
                }
            } else {
                if self.dropped_replies < u64::MAX {
                    self.dropped_replies = self.dropped_replies + 1;
                }
            }
            ri = ri + 1;
        }
        proof {
            assert(rs.skip(rs.len() as int) =~= Seq::<CommandResult>::empty());
        }
        Ok(pairs)
    }

    /// Fold one status line into the snapshot.
    fn apply_update(&mut self, u: Update)
        requires
            update_view(u) is Some,
        ensures
            final(self)@.st == spec_apply_update(old(self)@.st, update_view(u)->0),
            final(self)@.pending == old(self)@.pending,
            final(self)@.buf == old(self)@.buf,
            final(self)@.dropped == old(self)@.dropped,
    {
        match u {
            Update::Heartbeat => {
                if self.status.heartbeats < u64::MAX {
                    self.status.heartbeats = self.status.heartbeats + 1;
                }
            },
            Update::Buffer { bytes_remaining } => {
                self.status.buffer_bytes_remaining = bytes_remaining;
            },
            Update::Busy(b) => {
                self.status.busy_state = b;
            },
            Update::Connection(c) => {
                self.status.connection = c;
            },
            Update::TransceiverControl(t) => {
                self.status.transceiver_control = t;
            },
            Update::Registered { my_call } => {
                let ghost calls = self.status@.registered;
                let found = contains_call(&self.status.registered_calls, my_call.as_bytes());
                if !found {
                    self.status.registered_calls.push(my_call);
                    proof {
                        assert(self.status@.registered =~= calls.push(
                            (update_view(u)->0)->Registered_my_call,
                        ));
                    }
                }
            },
            Update::RemoteRegistration(rr) => {
                self.status.remote_registration = rr;
            },
        }
    }
}

/// Whether a callsign with these bytes is already registered.
fn contains_call(calls: &Vec<StationId>, c: &Vec<u8>) -> (r: bool)
    ensures
        r == exists|q: int| 0 <= q < calls@.len() && #[trigger] calls_view(calls@)[q] == c@,
{
    let ghost view = calls_view(calls@);
    let mut k: usize = 0;
    while k < calls.len()
        invariant
            k <= calls@.len(),
            view == calls_view(calls@),
            forall|q: int| 0 <= q < k ==> #[trigger] view[q] != c@,
        decreases calls@.len() - k,
    {
        if crate::types::bytes_eq(calls[k].as_bytes(), c) {
            proof {
                assert(view[k as int] == c@);
            }
            return true;
        }
        k = k + 1;
    }
    false
}

/// `line` holds `p` at offset `i`.
fn prefix_ignoring(line: &Vec<u8>, i: usize, p: &Vec<u8>) -> (r: bool)
    requires
        i <= line@.len(),
    ensures
        r == (line@.len() - i >= p@.len() && line@.subrange(i as int, i + p@.len()) == p@),
{
    if line.len() - i < p.len() {
        return false;
    }
    let dl = line.len();
    let mut k: usize = 0;
    while k < p.len()
        invariant
            k <= p@.len(),
            dl == line@.len(),
            i + p@.len() <= dl,
            forall|q: int| 0 <= q < k ==> line@[i + q] == p@[q],
        decreases p@.len() - k,
    {
        if line[i + k] != p[k] {
            proof {
                assert(line@.subrange(i as int, i + p@.len())[k as int] == line@[i + k]);
            }
            return false;
        }
        k = k + 1;
    }
    proof {
        assert(line@.subrange(i as int, i + p@.len()) =~= p@);
    }
    true
}

} // verus!
