//! Serving Modbus requests and decoding frames.

use iot_mock::model::{Area, RegisterStore};
use iot_mock::protocol::modbus::{parse_modbus_hex, process_pdu};
use iot_mock::protocol::ServerStats;

fn test_store() -> RegisterStore {
    RegisterStore::new(256)
}

#[test]
fn read_holding_registers_roundtrip() {
    let mut store = test_store();
    store.set(Area::HoldingRegisters, 3, 0x1234, "test");
    store.set(Area::HoldingRegisters, 4, 0xABCD, "test");

    let pdu = [0x03, 0x00, 0x03, 0x00, 0x02];
    let resp = process_pdu(&pdu, &mut store, &mut ServerStats::default());
    assert_eq!(resp, vec![0x03, 0x04, 0x12, 0x34, 0xAB, 0xCD]);
}

#[test]
fn write_multiple_registers_then_read() {
    let mut store = test_store();
    let pdu = [
        0x10, 0x00, 0x00, 0x00, 0x02, 0x04, 0x00, 0x0A, 0x00, 0x0B,
    ];
    let resp = process_pdu(&pdu, &mut store, &mut ServerStats::default());
    assert_eq!(resp, vec![0x10, 0x00, 0x00, 0x00, 0x02]);

    let pdu = [0x03, 0x00, 0x00, 0x00, 0x02];
    let resp = process_pdu(&pdu, &mut store, &mut ServerStats::default());
    assert_eq!(resp, vec![0x03, 0x04, 0x00, 0x0A, 0x00, 0x0B]);
}

#[test]
fn read_coils_bit_packing() {
    let mut store = test_store();
    store.set(Area::Coils, 0, 1, "test");
    store.set(Area::Coils, 7, 1, "test");
    store.set(Area::Coils, 8, 1, "test");

    let pdu = [0x01, 0x00, 0x00, 0x00, 0x09];
    let resp = process_pdu(&pdu, &mut store, &mut ServerStats::default());
    assert_eq!(resp, vec![0x01, 0x02, 0x81, 0x01]);
}

#[test]
fn out_of_bounds_read_returns_exception() {
    let mut store = test_store();
    let pdu = [0x03, 0x01, 0x00, 0x00, 0x10]; // addr 256 + qty 16 > 256
    let resp = process_pdu(&pdu, &mut store, &mut ServerStats::default());
    assert_eq!(resp, vec![0x83, 0x02]); // illegal data address
}

#[test]
fn bad_quantity_returns_exception() {
    let mut store = test_store();
    let pdu = [0x03, 0x00, 0x00, 0x00, 0x00]; // qty 0
    let resp = process_pdu(&pdu, &mut store, &mut ServerStats::default());
    assert_eq!(resp, vec![0x83, 0x03]); // illegal data value
}

#[test]
fn write_single_coil_echo() {
    let mut store = test_store();
    let pdu = [0x05, 0x00, 0x0A, 0xFF, 0x00];
    let resp = process_pdu(&pdu, &mut store, &mut ServerStats::default());
    assert_eq!(resp, vec![0x05, 0x00, 0x0A, 0xFF, 0x00]);
    assert_eq!(store.get(Area::Coils, 10), Some(1));
}

#[test]
fn parse_read_holding_registers_response() {
    let p = parse_modbus_hex("0001 0000 0007 01 03 04 12 34 56 78").unwrap();
    assert_eq!(p.tx_id, 0x0001);
    assert_eq!(p.proto_id, 0);
    assert_eq!(p.length, 7);
    assert_eq!(p.unit_id, 1);
    assert_eq!(p.function_code, 0x03);
    assert!(p.name.contains("读保持寄存器"));
    assert_eq!(p.words, vec![0x1234, 0x5678]);
}

#[test]
fn parse_read_registers_request_no_data() {
    let p = parse_modbus_hex("0001 0000 0006 01 03 000B 0001").unwrap();
    assert_eq!(p.function_code, 0x03);
    assert!(p.words.is_empty());
    assert!(p.note.contains("起始地址"));
    assert_eq!(p.length, 6);
}

#[test]
fn parse_write_single_register_value() {
    let p = parse_modbus_hex("0001000000060106000A1234").unwrap();
    assert_eq!(p.function_code, 0x06);
    assert_eq!(p.words, vec![0x1234]);
}

#[test]
fn parse_write_multiple_registers_request() {
    let p = parse_modbus_hex("0001 0000 000B 01 10 000A 0002 04 1234 5678").unwrap();
    assert_eq!(p.function_code, 0x10);
    assert_eq!(p.words, vec![0x1234, 0x5678]);
    assert!(p.note.contains("数量 2"));
}

#[test]
fn parse_read_coils_response_bit_bytes() {
    let p = parse_modbus_hex("0001000000050101028101").unwrap();
    assert_eq!(p.function_code, 0x01);
    // each packed bit byte surfaces as a word: 0x81, 0x01
    assert_eq!(p.words, vec![0x0081, 0x0001]);
}

#[test]
fn parse_rejects_short_and_bad_frames() {
    assert!(parse_modbus_hex("0103").is_err());        // too short
    assert!(parse_modbus_hex("xyz").is_err());          // bad chars
    assert!(parse_modbus_hex("00010000000601030").is_err()); // odd length
    assert!(parse_modbus_hex("").is_err());             // empty
}
