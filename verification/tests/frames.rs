//! Decoding frames in hexadecimal.

use iot_mock::protocol::frame::bytes_to_words;
use iot_mock::protocol::modbus::{function_code_name, parse_modbus_hex};
use iot_mock::protocol::session::hex_str;

fn note(hex: &str) -> String {
    parse_modbus_hex(hex).unwrap().note
}

fn words(hex: &str) -> Vec<u16> {
    parse_modbus_hex(hex).unwrap().words
}

fn message(hex: &str) -> String {
    parse_modbus_hex(hex).err().unwrap()
}

#[test]
fn malformed_text_is_told_apart() {
    assert_eq!(message("0103 zz"), "包含非十六进制字符");
    assert_eq!(message("  "), "请输入十六进制数据");
    assert_eq!(message("0x"), "请输入十六进制数据");
    assert_eq!(message("012"), "十六进制长度必须为偶数");
    assert_eq!(message("00 01 00 00 00 06 01"), "帧过短：至少需要 MBAP(7 字节) + 功能码(1 字节)");
}

#[test]
fn frames_cut_short_are_errors() {
    let cut = [
        "0001 0000 0006 01 03 00 0B 00",
        "0001 0000 0007 01 03",
        "0001 0000 0006 01 06 00 0A 12",
        "0001 0000 0006 01 05 00 0A FF",
        "0001 0000 0006 01 10 00 0A 00",
        "0001 0000 000B 01 10 00 0A 00 02",
        "0001 0000 0008 01 0F 00 0A 00 02",
        "0001 0000 0006 01 01 00 00 00",
    ];
    for hex in cut {
        assert_eq!(message(hex), "帧过短：数据区不完整", "{hex}");
    }
}

#[test]
fn prefixes_separate_bytes() {
    let a = parse_modbus_hex("0x00 0x01 0x00 0x00 0x00 0x05 0x01 0x03 0x02 0x12 0x34").unwrap();
    assert_eq!((a.tx_id, a.length, a.function_code), (1, 5, 3));
    assert_eq!(a.words, vec![0x1234]);
    let b = parse_modbus_hex("0X0001X0000\t0005\n0103021234").unwrap();
    assert_eq!(b.words, vec![0x1234]);
}

#[test]
fn notes_tell_requests_from_responses() {
    assert_eq!(note("0001 0000 0006 01 03 000B 0001"), "请求：起始地址 11，数量 1");
    assert_eq!(note("0001 0000 0006 01 01 0000 0010"), "请求：起始地址 0，数量 16");
    assert_eq!(
        note("0001 0000 0007 01 03 04 12 34 56 78"),
        "响应：4 字节 = 2 个寄存器（保持寄存器）"
    );
    assert_eq!(
        note("0001 0000 0005 01 04 02 12 34"),
        "响应：2 字节 = 1 个寄存器（输入寄存器）"
    );
    assert_eq!(note("0001 0000 0005 01 01 02 81 01"), "响应：位数据 2 字节（线圈）");
    assert_eq!(note("0001 0000 0004 01 02 01 81"), "响应：位数据 1 字节（离散输入）");
    assert_eq!(note("0001 0000 0006 01 06 000A 1234"), "写单个寄存器：值 0x1234（16 位）");
    assert_eq!(note("0001 0000 0006 01 05 000A FF00"), "写单个线圈：ON (0xFF00)");
    assert_eq!(note("0001 0000 0006 01 05 000A 0000"), "写单个线圈：OFF (0x0000)");
    assert_eq!(note("0001 0000 0006 01 05 000A 0001"), "写单个线圈：非法线圈值 (0x0001)");
    assert_eq!(note("0001 0000 0006 01 10 000A 0002"), "响应：已写入 2 个寄存器");
    assert_eq!(
        note("0001 0000 000B 01 10 000A 0002 04 1234 5678"),
        "请求：起始地址 10，数量 2，4 字节数据"
    );
    assert_eq!(note("0001 0000 0006 01 0F 000A 0003"), "响应：已写入 3 个线圈");
    assert_eq!(note("0001 0000 0008 01 0F 000A 0003 01 05"), "请求：数量 3，1 字节位数据");
    assert_eq!(
        note("0001 0000 0006 01 2B 1234 5678"),
        "数据区：2 个寄存器（按原始字节解析）"
    );
}

#[test]
fn data_words_follow_the_payload() {
    assert_eq!(words("0001 0000 0007 01 03 04 12 34 56"), vec![0x1234]);
    assert_eq!(words("0001 0000 0003 01 03 00"), Vec::<u16>::new());
    assert_eq!(words("0001 0000 0000 01 03 00"), Vec::<u16>::new());
    assert_eq!(words("0001 0000 0008 01 0F 000A 0009 02 05 01"), vec![5, 1]);
    assert_eq!(words("0001 0000 0006 01 05 000A FF00"), vec![0xFF00]);
    assert_eq!(words("0001 0000 0006 01 2B 1234 56"), vec![0x1234]);
    assert_eq!(words("0001 0000 0002 01 2B"), Vec::<u16>::new());
    assert_eq!(bytes_to_words(&[1, 2, 3]), vec![0x0102]);
}

#[test]
fn what_the_log_shows_can_be_decoded() {
    let frame = [0xAB, 0xCD, 0, 0, 0, 7, 0x11, 3, 4, 0xDE, 0xAD, 0xBE, 0xEF];
    let p = parse_modbus_hex(&hex_str(&frame)).unwrap();
    assert_eq!((p.tx_id, p.proto_id, p.length, p.unit_id), (0xABCD, 0, 7, 0x11));
    assert_eq!(p.words, vec![0xDEAD, 0xBEEF]);
}

#[test]
fn function_codes_have_names() {
    assert_eq!(function_code_name(0x0F), "写多个线圈 (Write Multiple Coils)");
    assert_eq!(function_code_name(0x10), "写多个寄存器 (Write Multiple Registers)");
    assert_eq!(function_code_name(0x11), "未知功能码");
}
