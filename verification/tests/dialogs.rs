//! The edit dialog, the decoder dialog, the register table and their texts.

use iot_mock::editor::{string_length, BitEditorState, ViewMode};
use iot_mock::hex_list::parse_hex_words;
use iot_mock::labels::{
    cell_text, edit_footer, edit_title, frame_header_text, function_code_text, port_from_text,
    preview_text, size_text, started_text, status_text, written_text,
};
use iot_mock::model::{snapshot_area, Area, ByteOrder, RegisterStore, ValueType};
use iot_mock::parser::{match_range, ParserState};
use iot_mock::table::RegTable;

#[test]
fn hex_lists_parse_word_by_word() {
    assert_eq!(parse_hex_words("1234 5678"), Ok(vec![0x1234, 0x5678]));
    assert_eq!(parse_hex_words(" 0xAb\t0X0001 +f 00001 "), Ok(vec![0xAB, 1, 15, 1]));
    assert_eq!(parse_hex_words("  "), Err("请输入十六进制寄存器值".to_string()));
    assert_eq!(parse_hex_words("12 10000"), Err("无效的十六进制 '10000'".to_string()));
    assert_eq!(parse_hex_words("zz 10000"), Err("无效的十六进制 'zz'".to_string()));
    assert_eq!(parse_hex_words("0x"), Err("无效的十六进制 '0x'".to_string()));
    assert_eq!(parse_hex_words("-1"), Err("无效的十六进制 '-1'".to_string()));
    assert_eq!(parse_hex_words("+"), Err("无效的十六进制 '+'".to_string()));
}

#[test]
fn a_new_editor_shows_one_cleared_register() {
    let e = BitEditorState::new();
    assert_eq!(e.bits, vec![false; 16]);
    assert_eq!(e.registers(), 1);
    assert_eq!(e.string_chars, 7);
    assert_eq!(e.view_mode, ViewMode::default());
    assert_eq!(e.words(), vec![0]);
    assert_eq!(e.byte_len(), 2);
}

#[test]
fn bits_and_words_are_two_views() {
    let mut e = BitEditorState::new();
    e.set_words(&[0x8001, 0x00F0]);
    assert_eq!(e.registers(), 2);
    assert!(e.bits[0] && e.bits[15] && e.bits[20] && !e.bits[1] && !e.bits[24]);
    assert_eq!(e.words(), vec![0x8001, 0x00F0]);
    e.set_bit(31, true);
    e.set_bit(0, false);
    e.set_bit(32, true);
    assert_eq!(e.words(), vec![0x8000, 0x80F0]);
    assert_eq!(e.hex_text(), "8000 80F0");
    e.value_type = ValueType::Uint32;
    assert_eq!(e.bits_text(), 0x8000_80F0u32.to_string());
}

#[test]
fn the_editor_loads_and_applies_typed_values() {
    let mut s = RegisterStore::new(8);
    let mut e = BitEditorState::new();
    e.open(Area::HoldingRegisters, 2, ValueType::Int32, &s, ByteOrder::Cdab);
    assert_eq!(e.regs_for_type(), 2);
    assert_eq!(e.apply_typed(&mut s, "-2"), Ok(vec![0xFFFE, 0xFFFF]));
    assert_eq!(s.range(Area::HoldingRegisters, 2, 2), Some(vec![0xFFFE, 0xFFFF]));
    assert_eq!(s.cells[2][2].writer, "UI");
    assert_eq!(e.display_value(&s), "-2");
    assert_eq!(e.bits_text(), "-2");
    assert_eq!(e.apply_typed(&mut s, "x"), Err("无效的 Int32 数值".to_string()));
    s.set(Area::HoldingRegisters, 2, 5, "test");
    assert!(e.load(&s, ByteOrder::Abcd));
    assert_eq!(e.words(), vec![5, 0xFFFF]);
    assert_eq!(e.byte_order, ByteOrder::Abcd);
}

#[test]
fn values_past_the_end_are_refused() {
    let mut s = RegisterStore::new(4);
    let mut e = BitEditorState::new();
    e.open(Area::HoldingRegisters, 3, ValueType::Uint32, &s, ByteOrder::Abcd);
    assert_eq!(e.words(), vec![0, 0]);
    assert_eq!(e.apply_typed(&mut s, "7"), Err("地址超出范围".to_string()));
    assert_eq!(e.words(), vec![0, 7]);
    assert_eq!(e.apply_words(&mut s), Err("地址超出范围".to_string()));
    assert_eq!(s.revision, 0);
}

#[test]
fn strings_take_the_width_of_their_buffer() {
    let mut s = RegisterStore::new(8);
    let mut e = BitEditorState::new();
    e.open(Area::HoldingRegisters, 0, ValueType::String, &s, ByteOrder::Abcd);
    assert_eq!((e.registers(), e.byte_len()), (4, 7));
    assert_eq!(e.apply_typed(&mut s, "Hi"), Ok(vec![0x4869, 0, 0, 0]));
    assert_eq!(e.pending_string, "Hi");
    assert_eq!(e.display_value(&s), "Hi");
    assert_eq!(
        e.apply_typed(&mut s, "HelloWorld"),
        Err("字符串长度超出上限：10 字节 > 上限 7 字节".to_string())
    );
    assert!(e.set_string_length("3", &s));
    assert_eq!((e.registers(), e.byte_len()), (2, 3));
    assert!(!e.set_string_length("3", &s));
    e.addr = 7;
    assert_eq!(
        e.apply_typed(&mut s, "a"),
        Err("字符串需占用 2 个寄存器，超出上限 1 个".to_string())
    );
    e.value_type = ValueType::Uint16;
    assert!(!e.set_string_length("9", &s));
}

#[test]
fn string_lengths_are_clamped() {
    assert_eq!(string_length("0"), 1);
    assert_eq!(string_length(" 12 "), 12);
    assert_eq!(string_length("121"), 120);
    assert_eq!(string_length("x"), 7);
    assert_eq!(string_length("-1"), 7);
    assert_eq!(string_length("99999999999999999999999"), 7);
}

#[test]
fn the_dialog_confirms_what_its_view_edits() {
    let mut s = RegisterStore::new(8);
    let mut e = BitEditorState::new();
    e.open(Area::HoldingRegisters, 1, ValueType::Uint32, &s, ByteOrder::Abcd);
    e.set_bit(0, true);
    assert_eq!(e.confirm(&mut s, "FFFF FFFF"), Ok(vec![1, 0]));
    e.view_mode = ViewMode::Hex;
    assert_eq!(e.confirm(&mut s, "1234 5678"), Ok(vec![0x1234, 0x5678]));
    assert_eq!(s.range(Area::HoldingRegisters, 1, 2), Some(vec![0x1234, 0x5678]));
    assert_eq!(
        e.confirm(&mut s, "1234"),
        Err("应输入 2 个寄存器字，实际 1 个".to_string())
    );
    assert_eq!(e.apply_hex(&mut s, "g"), Err("无效的十六进制 'g'".to_string()));
    e.set_words(&[]);
    assert_eq!(e.apply_words(&mut s), Err("没有可写入的数据".to_string()));
}

#[test]
fn read_only_areas_are_not_written() {
    let mut s = RegisterStore::new(8);
    let mut e = BitEditorState::new();
    for area in [Area::InputRegisters, Area::DiscreteInputs] {
        e.open(area, 0, ValueType::Uint16, &s, ByteOrder::Abcd);
        assert_eq!(e.apply_typed(&mut s, "1"), Err("区域只读".to_string()));
        assert_eq!(e.apply_words(&mut s), Err("区域只读".to_string()));
        assert_eq!(e.apply_hex(&mut s, "0001"), Err("区域只读".to_string()));
    }
    assert_eq!(s.revision, 0);
}

#[test]
fn a_parsed_frame_picks_its_type() {
    let mut p = ParserState::new();
    assert_eq!((p.decoded().as_str(), p.hex_text().as_str()), ("0", "0000"));
    p.parse("0001 0000 0005 01 03 02 FF FE");
    assert_eq!(p.value_type, ValueType::Int16);
    assert_eq!(p.decoded(), "-2");
    p.parse("0001 0000 0007 01 03 04 FF FF FF FD");
    assert_eq!(p.value_type, ValueType::Int32);
    assert_eq!(p.decoded(), "-3");
    p.parse("0001 0000 000B 01 03 08 00 00 00 00 00 00 00 05");
    assert_eq!(p.value_type, ValueType::Int64);
    assert_eq!(p.decoded(), "5");
    p.parse("0001 0000 0009 01 03 06 00 00 00 01 00 02");
    assert_eq!(p.value_type, ValueType::Int64);
    assert_eq!(p.hex_text(), "0000 0001 0002 0000");
    assert!(p.error.is_none());
    p.parse("nonsense");
    assert_eq!(p.error, Some("包含非十六进制字符".to_string()));
    assert_eq!(p.hex_text(), "0000 0001 0002 0000");
    assert!(p.info.is_some());
}

#[test]
fn types_cut_and_fill_the_words() {
    let mut p = ParserState::new();
    p.parse("0001 0000 0007 01 03 04 12 34 56 78");
    p.set_type(ValueType::Uint16);
    assert_eq!(p.hex_text(), "1234");
    p.set_type(ValueType::Uint32);
    assert_eq!(p.hex_text(), "1234 0000");
    p.match_type();
    assert_eq!(p.value_type, ValueType::Int32);
    assert_eq!(p.hex_text(), "1234 5678");
    p.set_byte_order(ByteOrder::Cdab);
    assert_eq!(p.decoded(), 0x5678_1234.to_string());
    p.set_type(ValueType::String);
    p.set_string_chars(500);
    assert_eq!((p.string_chars, p.type_word_count(), p.bits.len()), (120, 60, 960));
    p.set_string_length("0");
    assert_eq!((p.string_chars, p.words.len()), (1, 1));
}

#[test]
fn bits_of_a_parsed_value_can_be_toggled() {
    let mut p = ParserState::new();
    p.set_data(vec![0x0001, 0xFFFF]);
    p.toggle_bit(15, true);
    assert_eq!(p.words, vec![0x8001]);
    assert_eq!(p.decoded(), "32769");
    p.toggle_bit(15, false);
    p.toggle_bit(16, true);
    assert_eq!(p.words, vec![0x0001]);
    p.refresh();
    assert_eq!(p.words, vec![0x0001]);
}

#[test]
fn byte_orders_match_by_range() {
    let mut p = ParserState::new();
    p.set_type(ValueType::Int32);
    p.set_data(vec![0x1234, 0x0000]);
    assert!(p.match_byte_order(10000));
    assert_eq!(p.byte_order, ByteOrder::Cdab);
    assert_eq!(p.decoded(), "4660");
    p.set_data(vec![0x0000, 0x1200]);
    assert!(p.match_byte_order(10000));
    assert_eq!(p.byte_order, ByteOrder::Abcd);
    p.set_data(vec![0x0000, 0xE803]);
    assert!(p.match_byte_order(10000));
    assert_eq!((p.byte_order, p.decoded().as_str()), (ByteOrder::Badc, "1000"));
    p.set_data(vec![0xE803, 0x0000]);
    assert!(p.match_byte_order(10000));
    assert_eq!((p.byte_order, p.decoded().as_str()), (ByteOrder::Dcba, "1000"));
    p.set_data(vec![0xFFFF, 0xFFFF]);
    assert!(!p.match_byte_order(10000));
    assert_eq!(p.byte_order, ByteOrder::Dcba);
    assert_eq!(match_range(""), 10000);
    assert_eq!(match_range(" 500 "), 500);
}

#[test]
fn byte_orders_match_floats_and_strings() {
    let mut p = ParserState::new();
    p.set_type(ValueType::Float32);
    p.set_data(vec![0x0000, 0x4020]);
    assert!(p.match_byte_order(10000));
    assert_eq!((p.byte_order, p.decoded().as_str()), (ByteOrder::Abcd, "0.000000000000000000000000000000000000000023004"));
    p.set_data(vec![0xCCCD, 0x3DCC]);
    assert!(p.match_byte_order(10000));
    assert_eq!((p.byte_order, p.decoded().as_str()), (ByteOrder::Cdab, "0.1"));
    p.set_type(ValueType::String);
    p.set_string_chars(3);
    p.set_data(vec![0x4869, 0x2100]);
    assert!(p.match_byte_order(0));
    assert_eq!((p.byte_order, p.decoded().as_str()), (ByteOrder::Abcd, "Hi!"));
    p.set_data(vec![0x6948, 0x0021]);
    assert!(p.match_byte_order(0));
    assert_eq!((p.byte_order, p.decoded().as_str()), (ByteOrder::Cdab, "Hi!"));
    p.set_data(vec![0xE4B8, 0xAD00]);
    assert!(!p.match_byte_order(0));
    p.set_data(vec![0, 0]);
    assert!(!p.match_byte_order(0));
}

#[test]
fn sixteen_bit_values_match_in_the_first_order() {
    let mut p = ParserState::new();
    p.set_byte_order(ByteOrder::Dcba);
    p.set_data(vec![10000]);
    assert!(p.match_byte_order(10000));
    assert_eq!(p.byte_order, ByteOrder::Abcd);
    p.set_type(ValueType::Int16);
    p.set_data(vec![0xFFFF]);
    assert!(!p.match_byte_order(u64::MAX));
}

#[test]
fn the_table_marks_what_changed() {
    let mut s = RegisterStore::new(3);
    let mut t = RegTable::new();
    assert_eq!(t.area, Area::HoldingRegisters);
    t.apply_snapshot(snapshot_area(&s, Area::HoldingRegisters));
    assert!(t.rows.iter().all(|r| !r.changed));
    s.set(Area::HoldingRegisters, 1, 5, "Modbus TCP");
    t.apply_snapshot(snapshot_area(&s, Area::HoldingRegisters));
    let marks: Vec<bool> = t.rows.iter().map(|r| r.changed).collect();
    assert_eq!(marks, vec![false, true, false]);
    t.apply_snapshot(snapshot_area(&s, Area::HoldingRegisters));
    assert!(!t.rows[1].changed);
    t.poke_row(2, 9, "UI");
    assert_eq!((t.rows[2].value, t.rows[2].writer.as_str(), t.rows[2].changed), (9, "UI", true));
    assert_eq!(t.prev, vec![0, 5, 9]);
    t.poke_row(7, 1, "UI");
    assert_eq!(t.prev, vec![0, 5, 9]);
    t.poke_rows(1, &[1, 2, 3], "UI");
    assert_eq!(t.prev, vec![0, 1, 2]);
    t.set_area(Area::Coils);
    assert_eq!((t.area, t.rows.len(), t.prev.len()), (Area::Coils, 0, 0));
}

#[test]
fn texts_show_their_values() {
    assert_eq!(cell_text(Area::Coils, 1), "1");
    assert_eq!(cell_text(Area::HoldingRegisters, 255), format!("{:#06X}  ({})", 255, 255));
    assert_eq!(edit_title("线圈", 0x1F), format!("编辑寄存器 · 线圈 · 地址 {:#06X}", 0x1F));
    assert_eq!(edit_title("线圈", 0x12345), format!("编辑寄存器 · 线圈 · 地址 {:#06X}", 0x12345));
    assert_eq!(size_text(4, 7), "4 寄存器 · 7 字节");
    assert_eq!(
        edit_footer(0, 4, 7, "字符串 / 字符"),
        "占用 4 个寄存器 (地址 0x0000 ~ 0x0003) · 7 字节 · 字符串 / 字符"
    );
    assert_eq!(preview_text("Int32", "ABCD"), "Int32 · 字节序 ABCD");
    assert_eq!(written_text(3), "已写入 3 个寄存器");
    assert_eq!(frame_header_text(&None), "事务  · 协议  · 长度  · 单元 —");
    assert_eq!(function_code_text(&None), "功能码 —");
    let mut p = ParserState::new();
    p.parse("00A1 0000 0005 09 03 02 12 34");
    assert_eq!(frame_header_text(&p.info), "事务 0x00A1 · 协议 0x0000 · 长度 5 · 单元 9");
    assert_eq!(function_code_text(&p.info), "功能码 0x03");
    assert_eq!(port_from_text(" 1502 "), 1502);
    assert_eq!(port_from_text("65536"), 502);
    assert_eq!(port_from_text(""), 502);
    assert_eq!(
        status_text("Modbus TCP", "modbus-tcp", "运行中", 502, 2),
        "Modbus TCP [modbus-tcp]: 运行中 (端口 502) · 连接 2"
    );
    assert_eq!(
        started_text("Modbus TCP", 502, ByteOrder::Dcba),
        "Modbus TCP 已启动，监听端口 502 · 字节序 DCBA"
    );
}

#[test]
fn coils_report_and_show_what_they_keep_of_a_typed_value() {
    let mut s = RegisterStore::new(8);
    let mut e = BitEditorState::new();
    e.open(Area::Coils, 3, ValueType::Uint16, &s, ByteOrder::Abcd);
    assert_eq!(e.apply_typed(&mut s, "5"), Ok(vec![1]));
    assert_eq!(s.range(Area::Coils, 3, 1), Some(vec![1]));
    assert_eq!(s.cells[0][3].writer, "UI");
    assert_eq!(e.words(), vec![1]);
    assert_eq!(e.apply_typed(&mut s, "6"), Ok(vec![0]));
    assert_eq!(e.words(), vec![0]);
    e.open(Area::Coils, 7, ValueType::Uint32, &s, ByteOrder::Abcd);
    assert_eq!(e.apply_typed(&mut s, "5"), Err("地址超出范围".to_string()));
    assert_eq!(e.words(), vec![0, 5]);
}

#[test]
fn coils_leave_the_edited_words_in_the_view() {
    let mut s = RegisterStore::new(8);
    let mut e = BitEditorState::new();
    e.open(Area::Coils, 3, ValueType::Uint32, &s, ByteOrder::Abcd);
    assert_eq!(e.apply_hex(&mut s, "FFFF 0002"), Ok(vec![0xFFFF, 2]));
    assert_eq!(e.words(), vec![0xFFFF, 2]);
    assert_eq!(s.range(Area::Coils, 2, 4), Some(vec![0, 1, 0, 0]));
    e.set_words(&[5, 0]);
    e.set_bit(16, true);
    assert_eq!(e.apply_words(&mut s), Ok(vec![5, 1]));
    assert_eq!(e.words(), vec![5, 1]);
    assert_eq!(s.range(Area::Coils, 2, 4), Some(vec![0, 1, 1, 0]));
    e.view_mode = ViewMode::Hex;
    assert_eq!(e.confirm(&mut s, "0004 0007"), Ok(vec![4, 7]));
    assert_eq!(e.words(), vec![4, 7]);
    assert_eq!(s.range(Area::Coils, 2, 4), Some(vec![0, 0, 1, 0]));
    assert!(e.load(&s, ByteOrder::Abcd));
    assert_eq!(e.words(), vec![0, 1]);
    e.addr = 7;
    e.set_bit(7, true);
    assert_eq!(e.apply_words(&mut s), Err("地址超出范围".to_string()));
    assert_eq!(e.words(), vec![0x80, 1]);
}
