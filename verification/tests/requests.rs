//! Requests of every function code, frames and their log.

use iot_mock::model::{Area, RegisterStore};
use iot_mock::protocol::modbus::{check_range, exception, parse_addr_qty, process_pdu, ModbusError};
use iot_mock::protocol::session::{
    estimate_registers, hex_str, pdu_len, receive_frame, register_count_of_response, reply_to_frame,
};
use iot_mock::protocol::{message_log, MsgDirection, ProtocolContext, ServerStats};

fn ask(store: &mut RegisterStore, pdu: &[u8]) -> Vec<u8> {
    process_pdu(pdu, store, &mut ServerStats::default())
}

fn context(size: usize) -> ProtocolContext {
    ProtocolContext {
        store: RegisterStore::new(size),
        stats: ServerStats::default(),
        logs: message_log(),
    }
}

/// One round trip of a frame through the library.
fn round_trip(ctx: &mut ProtocolContext, tid: u16, unit: u8, pdu: &[u8]) -> Vec<u8> {
    let len = (1 + pdu.len()) as u16;
    let header = [(tid >> 8) as u8, tid as u8, 0, 0, (len >> 8) as u8, len as u8, unit];
    assert_eq!(pdu_len(&header), Some(pdu.len()));
    let response = receive_frame(&header, pdu, ctx, "12:00:00".to_string(), 1);
    let frame = reply_to_frame(&header, pdu, &response, ctx, "12:00:01".to_string(), 2);
    assert_eq!(frame[..4], [header[0], header[1], 0, 0]);
    assert_eq!(u16::from_be_bytes([frame[4], frame[5]]) as usize, frame.len() - 6);
    assert_eq!(frame[6], unit);
    frame[7..].to_vec()
}

#[test]
fn frames_end_to_end_read_and_write() {
    let mut ctx = context(256);

    // Write multiple registers (FC 0x10) at addr 0: 0x1111, 0x2222, 0x3333.
    let write_pdu = [
        0x10, 0x00, 0x00, 0x00, 0x03, 0x06, 0x11, 0x11, 0x22, 0x22, 0x33, 0x33,
    ];
    let resp = round_trip(&mut ctx, 0x0001, 0x01, &write_pdu);
    assert_eq!(resp, vec![0x10, 0x00, 0x00, 0x00, 0x03]);

    // Read them back (FC 0x03).
    let read_pdu = [0x03, 0x00, 0x00, 0x00, 0x03];
    let resp = round_trip(&mut ctx, 0x0002, 0x01, &read_pdu);
    assert_eq!(resp, vec![0x03, 0x06, 0x11, 0x11, 0x22, 0x22, 0x33, 0x33]);

    assert_eq!(ctx.store.get(Area::HoldingRegisters, 0), Some(0x1111));
    assert_eq!(ctx.store.get(Area::HoldingRegisters, 2), Some(0x3333));
    assert_eq!(ctx.store.cells[2][0].writer, "Modbus TCP");

    // Write a single coil (FC 0x05) and single register (FC 0x06).
    let coil_pdu = [0x05, 0x00, 0x0A, 0xFF, 0x00];
    assert_eq!(round_trip(&mut ctx, 0x0003, 0x01, &coil_pdu), coil_pdu.to_vec());
    let reg_pdu = [0x06, 0x00, 0x14, 0xAB, 0xCD];
    assert_eq!(round_trip(&mut ctx, 0x0004, 0x01, &reg_pdu), reg_pdu.to_vec());
    assert_eq!(ctx.store.get(Area::Coils, 10), Some(1));
    assert_eq!(ctx.store.get(Area::HoldingRegisters, 20), Some(0xABCD));

    // Unit id is echoed and preserved across the frame.
    assert_eq!(round_trip(&mut ctx, 0x0005, 0x42, &read_pdu).len(), 8);

    // Out-of-bounds read yields an exception (FC 0x83, code 0x02).
    let bad_pdu = [0x03, 0x01, 0x00, 0x00, 0x04];
    assert_eq!(round_trip(&mut ctx, 0x0006, 0x01, &bad_pdu), vec![0x83, 0x02]);

    assert_eq!(ctx.stats.total_requests, 6);
    assert_eq!(ctx.stats.error_responses, 1);
    assert_eq!(ctx.stats.cells_written, 5);
    assert_eq!(ctx.logs.len(), 12);
}

#[test]
fn frames_are_logged_in_both_directions() {
    let mut ctx = context(8);
    round_trip(&mut ctx, 0x0102, 9, &[0x03, 0x00, 0x00, 0x00, 0x02]);
    let request = &ctx.logs[0];
    assert_eq!(request.direction, MsgDirection::Received);
    assert_eq!(request.function_code, 0x03);
    assert_eq!(request.bytes, 12);
    assert_eq!(request.registers, 2);
    assert_eq!(request.hex, "01 02 00 00 00 06 09 03 00 00 00 02");
    assert_eq!((request.time.as_str(), request.ts_ms), ("12:00:00", 1));
    let reply = &ctx.logs[1];
    assert_eq!(reply.direction, MsgDirection::Sent);
    assert_eq!(reply.function_code, 0x03);
    assert_eq!(reply.bytes, 13);
    assert_eq!(reply.registers, 2);
    assert_eq!(reply.hex, "01 02 00 00 00 07 09 03 04 00 00 00 00");
    assert_eq!((reply.time.as_str(), reply.ts_ms), ("12:00:01", 2));
}

#[test]
fn frames_of_another_protocol_are_refused() {
    let mut ctx = context(8);
    let header = [0, 1, 0, 7, 0, 6, 1];
    let pdu = [0x06, 0x00, 0x00, 0x00, 0x05];
    let response = receive_frame(&header, &pdu, &mut ctx, String::new(), 0);
    assert_eq!(response, vec![0x81, 0x01]);
    assert_eq!(ctx.store.get(Area::HoldingRegisters, 0), Some(0));
    assert_eq!(ctx.stats.total_requests, 1);
    assert_eq!(ctx.stats.error_responses, 0);
}

#[test]
fn malformed_lengths_close_the_connection() {
    for (len, want) in [(0u16, None), (1, None), (2, Some(1)), (254, Some(253)), (255, None), (0x0102, None)] {
        let header = [0, 0, 0, 0, (len >> 8) as u8, len as u8, 1];
        assert_eq!(pdu_len(&header), want);
    }
}

#[test]
fn unknown_functions_and_empty_requests() {
    let mut s = RegisterStore::new(8);
    assert_eq!(ask(&mut s, &[0x2B, 1, 2, 3, 4]), vec![0xAB, 0x01]);
    assert_eq!(ask(&mut s, &[0x83]), vec![0x83, 0x01]);
    assert_eq!(ask(&mut s, &[]), Vec::<u8>::new());
    assert_eq!(exception(0x10, ModbusError::IllegalDataAddress.code()), vec![0x90, 0x02]);
}

#[test]
fn reads_check_their_quantity_and_range() {
    let mut s = RegisterStore::new(4096);
    for fc in [0x01u8, 0x02] {
        assert_eq!(ask(&mut s, &[fc, 0, 0, 0x07, 0xD0]).len(), 2 + 250);
        assert_eq!(ask(&mut s, &[fc, 0, 0, 0x07, 0xD1]), vec![fc | 0x80, 0x03]);
        assert_eq!(ask(&mut s, &[fc, 0, 0, 0]), vec![fc | 0x80, 0x03]);
        assert_eq!(ask(&mut s, &[fc, 0x0F, 0xFF, 0, 1]).len(), 3);
        assert_eq!(ask(&mut s, &[fc, 0x0F, 0xFF, 0, 2]), vec![fc | 0x80, 0x02]);
    }
    for fc in [0x03u8, 0x04] {
        assert_eq!(ask(&mut s, &[fc, 0, 0, 0, 125]).len(), 2 + 250);
        assert_eq!(ask(&mut s, &[fc, 0, 0, 0, 126]), vec![fc | 0x80, 0x03]);
        assert_eq!(ask(&mut s, &[fc, 0xFF, 0xFF, 0, 125]), vec![fc | 0x80, 0x02]);
    }
    assert_eq!(s.revision, 0);
}

#[test]
fn every_area_is_read_by_its_function() {
    let mut s = RegisterStore::new(16);
    s.set(Area::Coils, 0, 1, "test");
    s.set(Area::DiscreteInputs, 1, 1, "test");
    s.set(Area::HoldingRegisters, 0, 0x0102, "test");
    s.set(Area::InputRegisters, 0, 0x0304, "test");
    assert_eq!(ask(&mut s, &[0x01, 0, 0, 0, 2]), vec![0x01, 1, 0x01]);
    assert_eq!(ask(&mut s, &[0x02, 0, 0, 0, 2]), vec![0x02, 1, 0x02]);
    assert_eq!(ask(&mut s, &[0x03, 0, 0, 0, 1]), vec![0x03, 2, 0x01, 0x02]);
    assert_eq!(ask(&mut s, &[0x04, 0, 0, 0, 1]), vec![0x04, 2, 0x03, 0x04]);
}

#[test]
fn single_writes_check_their_value_and_range() {
    let mut s = RegisterStore::new(16);
    let mut stats = ServerStats::default();
    assert_eq!(process_pdu(&[0x05, 0, 0, 0x00, 0x01], &mut s, &mut stats), vec![0x85, 0x03]);
    assert_eq!(process_pdu(&[0x05, 0, 16, 0xFF, 0x00], &mut s, &mut stats), vec![0x85, 0x02]);
    assert_eq!(process_pdu(&[0x05, 0, 0, 0xFF], &mut s, &mut stats), vec![0x85, 0x03]);
    assert_eq!(process_pdu(&[0x06, 0, 16, 0x12, 0x34], &mut s, &mut stats), vec![0x86, 0x02]);
    assert_eq!(process_pdu(&[0x06, 0, 0], &mut s, &mut stats), vec![0x86, 0x03]);
    assert_eq!(stats.error_responses, 5);
    assert_eq!(stats.cells_written, 0);
    assert_eq!(s.revision, 0);
    process_pdu(&[0x05, 0, 3, 0xFF, 0x00], &mut s, &mut stats);
    process_pdu(&[0x05, 0, 3, 0x00, 0x00], &mut s, &mut stats);
    assert_eq!(s.get(Area::Coils, 3), Some(0));
    assert_eq!(process_pdu(&[0x01, 0, 3, 0, 1], &mut s, &mut stats), vec![0x01, 1, 0]);
    process_pdu(&[0x06, 0, 3, 0x12, 0x34, 0x99], &mut s, &mut stats);
    assert_eq!(process_pdu(&[0x03, 0, 3, 0, 1], &mut s, &mut stats), vec![0x03, 2, 0x12, 0x34]);
    assert_eq!(stats.cells_written, 3);
}

#[test]
fn several_coils_are_written_and_read_back() {
    let mut s = RegisterStore::new(32);
    let mut stats = ServerStats::default();
    let write = [0x0F, 0, 2, 0, 10, 2, 0b1010_0101, 0b0000_0010];
    assert_eq!(process_pdu(&write, &mut s, &mut stats), vec![0x0F, 0, 2, 0, 10]);
    assert_eq!(stats.cells_written, 10);
    assert_eq!(s.range(Area::Coils, 2, 10), Some(vec![1, 0, 1, 0, 0, 1, 0, 1, 0, 1]));
    assert_eq!(
        process_pdu(&[0x01, 0, 2, 0, 10], &mut s, &mut stats),
        vec![0x01, 2, 0b1010_0101, 0b0000_0010]
    );
    let before = s.revision;
    assert_eq!(process_pdu(&[0x0F, 0, 2, 0, 10, 1, 0, 0], &mut s, &mut stats), vec![0x8F, 0x03]);
    assert_eq!(process_pdu(&[0x0F, 0, 2, 0, 10, 2, 0], &mut s, &mut stats), vec![0x8F, 0x03]);
    assert_eq!(process_pdu(&[0x0F, 0, 2, 0, 0, 0], &mut s, &mut stats), vec![0x8F, 0x03]);
    assert_eq!(process_pdu(&[0x0F, 0, 30, 0, 8, 1, 0], &mut s, &mut stats), vec![0x8F, 0x02]);
    assert_eq!(process_pdu(&[0x0F, 0, 0, 0x07, 0xB1, 247], &mut s, &mut stats), vec![0x8F, 0x03]);
    assert_eq!(s.revision, before);
    assert_eq!(stats.error_responses, 5);
}

#[test]
fn several_registers_check_their_byte_count() {
    let mut s = RegisterStore::new(256);
    let mut long = vec![0x10, 0, 0, 0, 123, 246];
    long.extend(vec![0xAA; 246]);
    assert_eq!(ask(&mut s, &long), vec![0x10, 0, 0, 0, 123]);
    assert_eq!(s.get(Area::HoldingRegisters, 122), Some(0xAAAA));
    assert_eq!(s.get(Area::HoldingRegisters, 123), Some(0));
    assert_eq!(ask(&mut s, &[0x10, 0, 0, 0, 124, 248]), vec![0x90, 0x03]);
    assert_eq!(ask(&mut s, &[0x10, 0, 0, 0, 1, 3, 0, 0, 0]), vec![0x90, 0x03]);
    assert_eq!(ask(&mut s, &[0x10, 0, 0, 0, 1, 2, 0]), vec![0x90, 0x03]);
    assert_eq!(ask(&mut s, &[0x10, 1, 0, 0, 1, 2, 0, 0]), vec![0x90, 0x02]);
}

#[test]
fn ranges_are_checked_against_the_area() {
    let s = RegisterStore::new(4);
    assert_eq!(check_range(&s, Area::Coils, 0, 4), Ok(()));
    assert_eq!(check_range(&s, Area::Coils, 1, 4), Err(ModbusError::IllegalDataAddress));
    assert_eq!(check_range(&s, Area::Coils, 9, 0), Err(ModbusError::IllegalDataValue));
    assert_eq!(check_range(&s, Area::Coils, 1, usize::MAX), Err(ModbusError::IllegalDataAddress));
    assert_eq!(parse_addr_qty(&[1, 2, 3, 4, 5]), Some((0x0102, 0x0304)));
    assert_eq!(parse_addr_qty(&[1, 2, 3]), None);
}

#[test]
fn log_entries_estimate_their_registers() {
    assert_eq!(estimate_registers(&[0x03, 0, 0, 0x01, 0x02]), 0x0102);
    assert_eq!(estimate_registers(&[0x01, 0, 0, 0, 9]), 9);
    assert_eq!(estimate_registers(&[0x06, 0, 0, 0, 9]), 1);
    assert_eq!(estimate_registers(&[0x10, 0, 0, 0, 2, 4, 0, 1, 0, 2]), 2);
    assert_eq!(estimate_registers(&[0x0F, 0, 0, 0, 16, 2, 0, 0]), 1);
    assert_eq!(estimate_registers(&[0x10, 0, 0, 0, 2]), 0);
    assert_eq!(estimate_registers(&[0x2B, 0, 0, 0, 2]), 0);
    assert_eq!(estimate_registers(&[0x03, 0, 0, 0]), 0);
    assert_eq!(register_count_of_response(&[0x03, 4, 0, 0, 0, 0]), 2);
    assert_eq!(register_count_of_response(&[0x01, 2, 0, 0]), 16);
    assert_eq!(register_count_of_response(&[0x10, 0, 0, 0, 2]), 0);
    assert_eq!(register_count_of_response(&[0x06, 0, 0, 0, 2]), 0);
    assert_eq!(register_count_of_response(&[0x83, 2]), 0);
    assert_eq!(register_count_of_response(&[0x03]), 0);
    assert_eq!(hex_str(&[1, 3, 0, 10]), "01 03 00 0A");
}
