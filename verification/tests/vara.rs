//! The VARA control channel: command rendering, status-line parsing,
//! and the controller's FIFO reply discipline.

use plusendi::modem::vara::BandwidthMode;
use plusendi::modem::vara::BusyState;
use plusendi::modem::vara::Command;
use plusendi::modem::vara::CommandResult;
use plusendi::modem::vara::CompressionMode;
use plusendi::modem::vara::ConnectCommand;
use plusendi::modem::vara::ConnectPath;
use plusendi::modem::vara::ConnectionStateOwned;
use plusendi::modem::vara::ConnectResolution;
use plusendi::modem::vara::ListenMode;
use plusendi::modem::vara::MyCallSigns;
use plusendi::modem::vara::TncController;
use plusendi::modem::vara::TncResponse;
use plusendi::modem::vara::TransceiverCommand;
use plusendi::modem::vara::Update;
use plusendi::modem::vara::tnc_response;
use plusendi::rig::kx3;
use plusendi::StationId;

fn call(s: &str) -> StationId {
    StationId::new(s).unwrap()
}

#[test]
fn render_connect_direct() {
    let cmd = Command::Connect(ConnectCommand {
        origin: call("KC1GSL"),
        target: call("KW1U"),
        path: ConnectPath::Direct,
    });
    assert_eq!(cmd.render_wire(), b"CONNECT KC1GSL KW1U\r".to_vec());
}

#[test]
fn render_connect_one_hop() {
    let cmd = Command::Connect(ConnectCommand {
        origin: call("KC1GSL"),
        target: call("KW1U"),
        path: ConnectPath::OneHop { digipeater: call("W1XM") },
    });
    assert_eq!(cmd.render_wire(), b"CONNECT KC1GSL KW1U via W1XM\r".to_vec());
}

#[test]
fn render_settings() {
    assert_eq!(
        Command::SetBandwidth(BandwidthMode::Wide).render_wire(),
        b"BW2300\r".to_vec()
    );
    assert_eq!(
        Command::SetBandwidth(BandwidthMode::Narrow).render_wire(),
        b"BW500\r".to_vec()
    );
    assert_eq!(
        Command::SetCompression(CompressionMode::Text).render_wire(),
        b"COMPRESSION TEXT\r".to_vec()
    );
    assert_eq!(Command::Listen(ListenMode::CQ).render_wire(), b"LISTEN CQ\r".to_vec());
    assert_eq!(Command::Disconnect.render_wire(), b"DISCONNECT\r".to_vec());
    assert_eq!(Command::Abort.render_wire(), b"ABORT\r".to_vec());
}

#[test]
fn render_mycall_with_alias() {
    let cmd = Command::SetCall(MyCallSigns(call("KC1GSL"), vec![call("W1ABC")]));
    assert_eq!(cmd.render_wire(), b"MYCALL KC1GSL W1ABC\r".to_vec());
}

#[test]
fn parse_verdicts() {
    assert_eq!(
        tnc_response(&b"OK".to_vec()),
        Some(TncResponse::CommandResult(CommandResult::Okay))
    );
    assert_eq!(
        tnc_response(&b"WRONG".to_vec()),
        Some(TncResponse::CommandResult(CommandResult::Wrong))
    );
    // a verdict with a tail is not read as anything else
    assert_eq!(tnc_response(&b"OKAY".to_vec()), None);
}

#[test]
fn parse_updates() {
    assert_eq!(
        tnc_response(&b"IAMALIVE".to_vec()),
        Some(TncResponse::Update(Update::Heartbeat))
    );
    assert_eq!(
        tnc_response(&b"BUFFER 4096".to_vec()),
        Some(TncResponse::Update(Update::Buffer { bytes_remaining: 4096 }))
    );
    assert_eq!(
        tnc_response(&b"BUSY ON".to_vec()),
        Some(TncResponse::Update(Update::Busy(BusyState::Busy)))
    );
    assert_eq!(
        tnc_response(&b"PTT OFF".to_vec()),
        Some(TncResponse::Update(Update::TransceiverControl(TransceiverCommand::Receive)))
    );
    assert_eq!(
        tnc_response(&b"DISCONNECTED".to_vec()),
        Some(TncResponse::Update(Update::Connection(ConnectionStateOwned::Disconnected)))
    );
    assert_eq!(
        tnc_response(&b"CONNECTED KC1GSL KW1U".to_vec()),
        Some(TncResponse::Update(Update::Connection(ConnectionStateOwned::Connected {
            my_station: call("KC1GSL"),
            other_station: call("KW1U"),
        })))
    );
    assert_eq!(
        tnc_response(&b"REGISTERED KC1GSL".to_vec()),
        Some(TncResponse::Update(Update::Registered { my_call: call("KC1GSL") }))
    );
    assert_eq!(tnc_response(&b"BUFFER x".to_vec()), None);
    assert_eq!(tnc_response(&b"SOMETHING ELSE".to_vec()), None);
}

#[test]
fn controller_fifo_replies_in_order() {
    let mut ctrl = TncController::new();
    let w1 = ctrl.submit(&Command::SetBandwidth(BandwidthMode::Wide), 1);
    assert_eq!(w1, b"BW2300\r".to_vec());
    let _ = ctrl.submit(&Command::SetCompression(CompressionMode::Text), 2);
    let _ = ctrl.submit(&Command::Disconnect, 3);

    let pairs = ctrl.ingest(&b"OK\rWRONG\r".to_vec()).unwrap();
    assert_eq!(pairs, vec![(1, CommandResult::Okay), (2, CommandResult::Wrong)]);

    // the third reply arrives later and goes to the third submitter
    let pairs = ctrl.ingest(&b"OK\r".to_vec()).unwrap();
    assert_eq!(pairs, vec![(3, CommandResult::Okay)]);
}

#[test]
fn controller_folds_status_updates() {
    let mut ctrl = TncController::new();
    let pairs = ctrl
        .ingest(&b"BUFFER 123\rBUSY ON\rPTT ON\rCONNECTED KC1GSL KW1U\rIAMALIVE\r".to_vec())
        .unwrap();
    assert!(pairs.is_empty());
    assert_eq!(ctrl.status.buffer_bytes_remaining, 123);
    assert_eq!(ctrl.status.busy_state, BusyState::Busy);
    assert_eq!(ctrl.status.transceiver_control, TransceiverCommand::Transmit);
    assert!(ctrl.status.connection.is_connected());
    assert_eq!(ctrl.status.heartbeats, 1);
}

#[test]
fn controller_keeps_partial_line() {
    let mut ctrl = TncController::new();
    let pairs = ctrl.ingest(&b"PENDI".to_vec()).unwrap();
    assert!(pairs.is_empty());
    assert!(ctrl.status.connection.is_disconnected());
    let pairs = ctrl.ingest(&b"NG\r".to_vec()).unwrap();
    assert!(pairs.is_empty());
    assert!(!ctrl.status.connection.is_disconnected());
    assert!(!ctrl.status.connection.is_connected());
}

#[test]
fn controller_registers_each_call_once() {
    let mut ctrl = TncController::new();
    ctrl.ingest(&b"REGISTERED KC1GSL\rREGISTERED KC1GSL\rREGISTERED KW1U\r".to_vec())
        .unwrap();
    assert_eq!(ctrl.status.registered_calls.len(), 2);
}

#[test]
fn controller_refuses_bad_line() {
    let mut ctrl = TncController::new();
    assert!(ctrl.ingest(&b"GIBBERISH LINE\r".to_vec()).is_err());
    let mut ctrl = TncController::new();
    assert!(ctrl.ingest(&b"\r".to_vec()).is_err());
}

#[test]
fn rig_commands_follow_ptt() {
    let tx = kx3::Command::for_transceiver(TransceiverCommand::Transmit);
    assert_eq!(tx.render_wire(), b"TX;".to_vec());
    let rx = kx3::Command::for_transceiver(TransceiverCommand::Receive);
    assert_eq!(rx.render_wire(), b"RX;".to_vec());
}

#[test]
fn connect_resolution_follows_state() {
    assert_eq!(
        ConnectionStateOwned::Connected { my_station: call("KC1GSL"), other_station: call("KW1U") }
            .connect_resolution(),
        ConnectResolution::Established
    );
    assert_eq!(
        ConnectionStateOwned::Disconnected.connect_resolution(),
        ConnectResolution::Refused
    );
    assert_eq!(
        ConnectionStateOwned::Canceled.connect_resolution(),
        ConnectResolution::Unexpected
    );
}
