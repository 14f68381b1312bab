//! Statistics, message log and server lifecycle.

use iot_mock::protocol::modbus::{ModbusTcpServer, DEFAULT_PORT};
use iot_mock::protocol::{
    log_message, message_log, timestamp, timestamp_ms, MessageLogEntry, MsgDirection, Protocol,
    ProtocolCard, ServerState, ServerStats, StartAction, StopAction,
    MAX_LOG_ENTRIES,
};

#[test]
fn stats_track_peaks() {
    let mut s = ServerStats::default();
    s.client_connected();
    s.client_connected();
    s.client_disconnected();
    assert_eq!(s.current_clients, 1);
    assert_eq!(s.peak_clients, 2);
}

#[test]
fn message_log_ring_buffer_caps_and_orders() {
    let mut logs = message_log();
    for i in 0..(MAX_LOG_ENTRIES + 20) {
        log_message(
            &mut logs,
            MessageLogEntry {
                direction: if i % 2 == 0 {
                    MsgDirection::Sent
                } else {
                    MsgDirection::Received
                },
                function_code: (i % 0x10) as u8,
                bytes: i + 7,
                registers: i,
                hex: format!("{i:02X}"),
                time: timestamp(Some(i as u64)),
                ts_ms: timestamp_ms(Some(i as u128)),
            },
        );
    }
    assert_eq!(logs.len(), MAX_LOG_ENTRIES);
    // The (N+20)th entry has function_code = (MAX_LOG_ENTRIES+19) % 0x10.
    assert_eq!(
        logs.back().unwrap().function_code,
        ((MAX_LOG_ENTRIES + 19) % 0x10) as u8
    );
    assert_eq!(logs.front().unwrap().registers, 20);
}

#[test]
fn statistics_count_and_wrap() {
    let mut s = ServerStats::default();
    s.requests(3);
    s.cells_written(4);
    s.errors(5);
    assert_eq!((s.total_requests, s.cells_written, s.error_responses), (3, 4, 5));
    s.requests(u64::MAX);
    assert_eq!(s.total_requests, 2);
    s.client_connected();
    s.client_disconnected();
    s.client_connected();
    assert_eq!((s.current_clients, s.peak_clients), (1, 1));
}

#[test]
fn times_of_day_wrap_at_midnight() {
    assert_eq!(timestamp(Some(0)), "00:00:00");
    assert_eq!(timestamp(Some(86399)), "23:59:59");
    assert_eq!(timestamp(Some(86400 + 3661)), "01:01:01");
    assert_eq!(timestamp(None), "00:00:00");
    assert_eq!(timestamp_ms(Some(1_700_000_000_123)), 1_700_000_000_123);
    assert_eq!(timestamp_ms(Some((1u128 << 64) + 5)), 5);
    assert_eq!(timestamp_ms(None), 0);
}

#[test]
fn directions_and_states_have_labels() {
    assert_eq!(MsgDirection::Sent.label(), "发送");
    assert_eq!(MsgDirection::Received.label(), "接收");
    let states = [
        (ServerState::Stopped, "已停止"),
        (ServerState::Starting, "启动中"),
        (ServerState::Running, "运行中"),
        (ServerState::Stopping, "停止中"),
        (ServerState::Error("x".to_string()), "错误"),
    ];
    for (state, label) in states {
        assert_eq!(state.label(), label);
        assert_eq!(state.copy(), state);
    }
}

#[test]
fn a_server_starts_runs_and_stops() {
    let mut card = ProtocolCard::new(ModbusTcpServer::new(1502));
    let s = &mut card.protocol;
    assert_eq!((s.id(), s.name()), ("modbus-tcp", "Modbus TCP"));
    assert_eq!(s.description(), "Modbus TCP server (FC 01-06, 0F, 10)");
    assert_eq!(s.state(), ServerState::Stopped);
    assert_eq!(s.stop(), StopAction::Nothing);
    s.set_port(1503);
    assert_eq!(s.start(), StartAction::Launch { shut_down_first: false, port: 1503 });
    assert_eq!(s.state(), ServerState::Starting);
    assert!(!s.keeps_accepting());
    s.launched();
    assert!(s.keeps_accepting() && !s.is_running());
    s.bound();
    assert!(s.is_running());
    assert_eq!(s.start(), StartAction::Nothing);
    s.set_port(9);
    assert_eq!(s.port(), 1503);
    assert_eq!(s.stop(), StopAction::ShutDown { runtime: true });
    assert_eq!(s.state(), ServerState::Stopping);
    assert!(!s.keeps_accepting());
    s.stopped();
    assert_eq!(s.state(), ServerState::Stopped);
    assert!(!s.is_running());
}

#[test]
fn a_server_that_cannot_bind_can_be_started_again() {
    let mut s = ModbusTcpServer::new(DEFAULT_PORT);
    assert_eq!(s.start(), StartAction::Launch { shut_down_first: false, port: 502 });
    s.launched();
    s.bind_failed(502, "Permission denied");
    assert_eq!(
        s.state(),
        ServerState::Error("绑定 0.0.0.0:502 失败: Permission denied".to_string())
    );
    s.set_port(1502);
    assert_eq!(s.start(), StartAction::Launch { shut_down_first: true, port: 1502 });
    assert!(!s.keeps_accepting());
}

#[test]
fn the_port_changes_only_while_stopped() {
    let mut s = ModbusTcpServer::new(1502);
    s.set_port(1503);
    assert_eq!(s.port(), 1503);
    s.start();
    assert_eq!(s.state(), ServerState::Starting);
    s.set_port(9);
    assert_eq!(s.port(), 1503);
    s.launched();
    s.bound();
    assert_eq!(s.state(), ServerState::Running);
    s.set_port(9);
    assert_eq!(s.port(), 1503);
    s.stop();
    assert_eq!(s.state(), ServerState::Stopping);
    s.set_port(9);
    assert_eq!(s.port(), 1503);
    s.stopped();
    s.set_port(1504);
    assert_eq!(s.port(), 1504);
    s.start();
    s.launched();
    s.bind_failed(1504, "in use");
    s.set_port(1505);
    assert_eq!(s.port(), 1505);
}
