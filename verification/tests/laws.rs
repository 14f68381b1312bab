//! What holds across operations, on concrete values.

use iot_mock::editor::BitEditorState;
use iot_mock::hex_list::parse_hex_words;
use iot_mock::model::{snapshot_area, Area, ByteOrder, RegisterStore, ValueType, ALL_AREAS};
use iot_mock::protocol::modbus::{parse_modbus_hex, process_pdu};
use iot_mock::protocol::session::{receive_frame, reply_to_frame};
use iot_mock::protocol::{message_log, ProtocolContext, ServerStats, MAX_LOG_ENTRIES};
use iot_mock::text::hex_words_text;

#[test]
fn clients_read_what_the_dialog_wrote_and_the_dialog_what_clients_wrote() {
    let mut s = RegisterStore::new(16);
    let mut e = BitEditorState::new();
    e.open(Area::HoldingRegisters, 4, ValueType::Int32, &s, ByteOrder::Badc);
    e.apply_typed(&mut s, "-123456789").unwrap();
    let words = s.range(Area::HoldingRegisters, 4, 2).unwrap();
    let reply = process_pdu(&[3, 0, 4, 0, 2], &mut s, &mut ServerStats::default());
    assert_eq!(reply[2..4], words[0].to_be_bytes());
    assert_eq!(reply[4..6], words[1].to_be_bytes());
    process_pdu(&[0x10, 0, 4, 0, 2, 4, 0, 0, 0, 7], &mut s, &mut ServerStats::default());
    e.load(&s, ByteOrder::Abcd);
    assert_eq!(e.display_value(&s), "7");
}

#[test]
fn accepted_spellings_settle_on_one() {
    let cases = [
        (ValueType::Uint16, " +007 ", "7"),
        (ValueType::Int64, "-000", "0"),
        (ValueType::Float32, "1e1", "10"),
        (ValueType::Float32, ".1000", "0.1"),
        (ValueType::Double, "-0e9", "-0"),
        (ValueType::Double, "1e-7", "0.0000001"),
    ];
    for (t, text, shown) in cases {
        let words = t.encode_text(text, ByteOrder::Dcba, 4).unwrap();
        assert_eq!(t.decode_words(&words, ByteOrder::Dcba), shown);
        assert_eq!(t.encode_text(shown, ByteOrder::Dcba, 4), Ok(words));
    }
}

#[test]
fn shown_words_parse_to_themselves() {
    let words = vec![0x0000, 0xFFFF, 0x00E0, 0x1234];
    assert_eq!(parse_hex_words(&hex_words_text(&words)), Ok(words));
}

#[test]
fn replies_parse_to_the_values_read() {
    let mut ctx = ProtocolContext {
        store: RegisterStore::new(8),
        stats: ServerStats::default(),
        logs: message_log(),
    };
    ctx.store.set_range(Area::HoldingRegisters, 0, &[0xDEAD, 0xBEEF, 1], "test");
    let header = [0x12, 0x34, 0, 0, 0, 6, 7];
    let pdu = [3, 0, 0, 0, 3];
    let response = receive_frame(&header, &pdu, &mut ctx, String::new(), 0);
    reply_to_frame(&header, &pdu, &response, &mut ctx, String::new(), 0);
    let parsed = parse_modbus_hex(&ctx.logs[1].hex).unwrap();
    assert_eq!((parsed.tx_id, parsed.unit_id, parsed.function_code), (0x1234, 7, 3));
    assert_eq!(parsed.words, vec![0xDEAD, 0xBEEF, 1]);
}

#[test]
fn a_full_log_keeps_the_latest_frames() {
    let mut ctx = ProtocolContext {
        store: RegisterStore::new(8),
        stats: ServerStats::default(),
        logs: message_log(),
    };
    for i in 0..150u8 {
        let header = [0, i, 0, 0, 0, 6, 1];
        let pdu = [3, 0, 0, 0, 1];
        let response = receive_frame(&header, &pdu, &mut ctx, String::new(), i as u64);
        reply_to_frame(&header, &pdu, &response, &mut ctx, String::new(), i as u64);
    }
    assert_eq!(ctx.logs.len(), MAX_LOG_ENTRIES);
    assert_eq!(ctx.logs[0].ts_ms, 50);
    assert_eq!(ctx.logs[MAX_LOG_ENTRIES - 1].ts_ms, 149);
    assert_eq!(ctx.stats.total_requests, 150);
}

#[test]
fn no_request_touches_the_inputs_or_the_names() {
    let mut s = RegisterStore::new(64);
    s.fill(Area::DiscreteInputs, &[1, 0], "test");
    s.fill(Area::InputRegisters, &[9, 8, 7], "test");
    let before: Vec<Vec<String>> = ALL_AREAS
        .iter()
        .map(|a| snapshot_area(&s, *a).rows.iter().map(|r| r.name.clone()).collect())
        .collect();
    let inputs = s.range(Area::DiscreteInputs, 0, 64);
    let words = s.range(Area::InputRegisters, 0, 64);
    for fc in 0..=255u8 {
        let pdu = [fc, 0, 1, 0, 2, 4, 0xFF, 0x01, 0xFF, 0x03];
        process_pdu(&pdu, &mut s, &mut ServerStats::default());
        process_pdu(&[fc, 0, 1, 0xFF, 0], &mut s, &mut ServerStats::default());
    }
    assert_eq!(s.range(Area::DiscreteInputs, 0, 64), inputs);
    assert_eq!(s.range(Area::InputRegisters, 0, 64), words);
    let after: Vec<Vec<String>> = ALL_AREAS
        .iter()
        .map(|a| snapshot_area(&s, *a).rows.iter().map(|r| r.name.clone()).collect())
        .collect();
    assert_eq!(before, after);
    assert!(s.range(Area::Coils, 0, 64).unwrap().iter().all(|v| *v <= 1));
}

#[test]
fn bits_that_fill_up_the_last_byte_read_as_zero() {
    let mut s = RegisterStore::new(16);
    let mut stats = ServerStats::default();
    process_pdu(&[0x0F, 0, 0, 0, 3, 1, 0xFF], &mut s, &mut stats);
    assert_eq!(process_pdu(&[1, 0, 0, 0, 3], &mut s, &mut stats), vec![1, 1, 0x07]);
}

#[test]
fn clients_read_every_area_as_the_store_holds_it() {
    let mut s = RegisterStore::new(2000);
    let bits: Vec<u16> = (0..2000).map(|i| u16::from(i % 3 == 0)).collect();
    let words: Vec<u16> = (0..125).map(|i| i * 517).collect();
    for (fc, area) in [(1, Area::Coils), (2, Area::DiscreteInputs)] {
        s.set_range(area, 0, &bits, "UI");
        let reply = process_pdu(&[fc, 0, 0, 0x07, 0xD0], &mut s, &mut ServerStats::default());
        assert_eq!(reply[..2], [fc, 250]);
        assert_eq!(reply.len(), 252);
        for i in 0..2000 {
            assert_eq!(u16::from(reply[2 + i / 8] >> (i % 8) & 1), bits[i]);
        }
    }
    for (fc, area) in [(3, Area::HoldingRegisters), (4, Area::InputRegisters)] {
        s.set_range(area, 7, &words, "UI");
        let reply = process_pdu(&[fc, 0, 7, 0, 125], &mut s, &mut ServerStats::default());
        assert_eq!(reply[..2], [fc, 250]);
        assert_eq!(reply.len(), 252);
        for i in 0..125 {
            assert_eq!(reply[2 + 2 * i..4 + 2 * i], words[i].to_be_bytes());
        }
    }
}

#[test]
fn clients_and_the_dialog_share_the_coils() {
    let mut s = RegisterStore::new(16);
    let mut e = BitEditorState::new();
    e.open(Area::Coils, 2, ValueType::Uint16, &s, ByteOrder::Abcd);
    e.apply_typed(&mut s, "3").unwrap();
    let reply = process_pdu(&[1, 0, 0, 0, 8], &mut s, &mut ServerStats::default());
    assert_eq!(reply, vec![1, 1, 0b100]);
    process_pdu(&[0x0F, 0, 1, 0, 2, 1, 0b01], &mut s, &mut ServerStats::default());
    e.load(&s, ByteOrder::Abcd);
    assert_eq!(e.words(), vec![0]);
    assert_eq!(s.range(Area::Coils, 0, 4), Some(vec![0, 1, 0, 0]));
}

#[test]
fn a_tick_changes_few_cells_and_signs_them() {
    let mut s = RegisterStore::new(200);
    for seed in 0..40 {
        let before = s.clone();
        s.simulate_tick(seed);
        for (area, most) in [(0, 4), (1, 0), (2, 16), (3, 0)] {
            let changed: Vec<usize> = (0..200)
                .filter(|&i| {
                    let (a, b) = (&s.cells[area][i], &before.cells[area][i]);
                    (a.value, &a.writer, &a.name) != (b.value, &b.writer, &b.name)
                })
                .collect();
            assert!(changed.len() <= most);
            assert!(changed.iter().all(|&i| s.cells[area][i].writer == "Simulator"));
        }
    }
}
