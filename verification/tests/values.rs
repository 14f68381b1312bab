//! Typed values beyond the plain round trips: messages, limits, strings.

use iot_mock::model::value_type::{load_string, store_string, string_bytes};
use iot_mock::model::{bytes_to_regs, encode_string_fixed, ByteOrder, DataWidth, ValueType};

#[test]
fn defaults_are_the_first_choices() {
    assert_eq!(DataWidth::default(), DataWidth::Bits16);
    assert_eq!(ByteOrder::default(), ByteOrder::Abcd);
    assert_eq!(ValueType::default(), ValueType::Uint16);
}

#[test]
fn labels_name_every_choice() {
    assert_eq!(DataWidth::Bits16.label(), "16 位 (单寄存器)");
    assert_eq!(DataWidth::Bits32.label(), "32 位 (双寄存器)");
    assert_eq!(ByteOrder::Badc.name(), "BADC (大端字交换 Word-Swap)");
    let codes: Vec<&str> = ByteOrder::ALL.iter().map(|o| o.code()).collect();
    assert_eq!(codes, vec!["ABCD", "CDAB", "BADC", "DCBA"]);
    let labels: Vec<&str> = ValueType::ALL.iter().map(|t| t.label()).collect();
    assert_eq!(
        labels,
        vec!["UInt16", "Int16", "UInt32", "Int32", "Float32", "UInt64", "Int64", "Double", "String"]
    );
    assert_eq!(ValueType::Double.label_zh(), "64位双精度浮点数");
    assert_eq!(ValueType::String.bits(), None);
    assert_eq!(ValueType::Int16.bits(), Some(16));
}

#[test]
fn numbers_that_do_not_parse_say_their_type() {
    let cases = [
        (ValueType::Uint16, "65536", "无效的 UInt16 数值"),
        (ValueType::Int16, "32768", "无效的 Int16 数值"),
        (ValueType::Uint32, "-1", "无效的 UInt32 数值"),
        (ValueType::Int32, "2147483648", "无效的 Int32 数值"),
        (ValueType::Float32, "1e", "无效的 Float32 数值"),
        (ValueType::Uint64, "1.5", "无效的 UInt64 数值"),
        (ValueType::Int64, "", "无效的 Int64 数值"),
        (ValueType::Double, "x", "无效的 Double 数值"),
        (ValueType::Float32, "1e39", "浮点数必须为有限值"),
        (ValueType::Float32, "-inf", "浮点数必须为有限值"),
        (ValueType::Double, "nan", "浮点数必须为有限值"),
    ];
    for (t, text, message) in cases {
        assert_eq!(t.encode_text(text, ByteOrder::Abcd, 4), Err(message.to_string()));
    }
}

#[test]
fn numbers_take_the_registers_of_their_order() {
    assert_eq!(ValueType::Int16.encode_text(" -2 ", ByteOrder::Dcba, 0), Ok(vec![0xFFFE]));
    assert_eq!(
        ValueType::Float32.encode_text("2.5", ByteOrder::Cdab, 0),
        Ok(vec![0x0000, 0x4020])
    );
    assert_eq!(
        ValueType::Double.encode_text("-0", ByteOrder::Badc, 0),
        Ok(vec![0x0080, 0, 0, 0])
    );
    assert_eq!(
        ValueType::Int64.encode_text("-2", ByteOrder::Abcd, 0),
        Ok(vec![0xFFFF, 0xFFFF, 0xFFFF, 0xFFFE])
    );
}

#[test]
fn registers_decode_to_text() {
    assert_eq!(ValueType::Uint16.decode_words(&[], ByteOrder::Abcd), "0");
    assert_eq!(ValueType::Int16.decode_words(&[0x8000], ByteOrder::Abcd), "-32768");
    assert_eq!(ValueType::Int32.decode_words(&[0, 0x8000], ByteOrder::Cdab), "-2147483648");
    assert_eq!(
        ValueType::Int64.decode_words(&[0x8000, 0, 0, 0], ByteOrder::Abcd),
        "-9223372036854775808"
    );
    assert_eq!(ValueType::Float32.decode_words(&[0x7F80, 0], ByteOrder::Abcd), "inf");
    assert_eq!(ValueType::Float32.decode_words(&[0xFF80, 0], ByteOrder::Abcd), "-inf");
    assert_eq!(ValueType::Float32.decode_words(&[0x7FC0, 0], ByteOrder::Abcd), "NaN");
    assert_eq!(ValueType::Float32.decode_words(&[0x3DCC, 0xCCCD], ByteOrder::Abcd), "0.1");
    assert_eq!(
        ValueType::Double.decode_words(&[0x7E37, 0xE43C, 0x8800, 0x759C], ByteOrder::Abcd),
        1e300f64.to_string()
    );
}

#[test]
fn encoding_a_decoded_number_gives_its_registers() {
    let words = [0x4049, 0x0FDB, 0x1234, 0xFEDC];
    for order in ByteOrder::ALL {
        for t in ValueType::ALL {
            if let Some(n) = t.fixed_registers() {
                let text = t.decode_words(&words[..n], order);
                assert_eq!(t.encode_text(&text, order, n), Ok(words[..n].to_vec()), "{text}");
            }
        }
    }
}

#[test]
fn strings_swap_the_bytes_of_a_pair() {
    assert_eq!(store_string("Hi!", ByteOrder::Abcd, 2), Ok(vec![0x4869, 0x2100]));
    assert_eq!(store_string("Hi!", ByteOrder::Badc, 2), Ok(vec![0x4869, 0x2100]));
    assert_eq!(store_string("Hi!", ByteOrder::Cdab, 2), Ok(vec![0x6948, 0x0021]));
    assert_eq!(store_string("Hi!", ByteOrder::Dcba, 2), Ok(vec![0x6948, 0x0021]));
    assert_eq!(store_string("", ByteOrder::Abcd, 0), Ok(vec![]));
    assert_eq!(
        store_string("Hi!", ByteOrder::Abcd, 1),
        Err("字符串需占用 2 个寄存器，超出上限 1 个".to_string())
    );
}

#[test]
fn fixed_strings_say_what_does_not_fit() {
    assert_eq!(
        encode_string_fixed("HelloWorld", ByteOrder::Abcd, 8, 7),
        Err("字符串长度超出上限：10 字节 > 上限 7 字节".to_string())
    );
    assert_eq!(
        encode_string_fixed("abc", ByteOrder::Abcd, 4, 16),
        Err("字符串需占用 8 个寄存器，超出上限 4 个".to_string())
    );
    assert_eq!(encode_string_fixed("ab", ByteOrder::Dcba, 2, 3), Ok(vec![0x6261, 0]));
}

#[test]
fn strings_read_back_unless_they_end_in_nul() {
    for order in ByteOrder::ALL {
        for s in ["", "A", "Hi", "中文", "a\u{0}b", "€uro", "🙂"] {
            let words = store_string(s, order, 8).unwrap();
            assert_eq!(load_string(&words, order), s);
            let wide = encode_string_fixed(s, order, 8, 15).unwrap();
            assert_eq!(wide.len(), bytes_to_regs(15));
            assert_eq!(ValueType::String.decode_words(&wide, order), s);
        }
    }
    let words = store_string("a\u{0}", ByteOrder::Abcd, 8).unwrap();
    assert_eq!(load_string(&words, ByteOrder::Abcd), "a");
}

#[test]
fn bytes_that_are_not_utf8_decode_lossily() {
    assert_eq!(string_bytes(&[0x41FF, 0x4200], ByteOrder::Abcd), vec![0x41, 0xFF, 0x42]);
    assert_eq!(
        ValueType::String.decode_words(&[0x41FF, 0x4200], ByteOrder::Abcd),
        "A\u{FFFD}B"
    );
    assert_eq!(
        ValueType::String.decode_words(&[0xE4B8], ByteOrder::Abcd),
        String::from_utf8_lossy(&[0xE4, 0xB8])
    );
}

#[test]
fn byte_counts_round_up_to_the_end() {
    assert_eq!(bytes_to_regs(0), 0);
    assert_eq!(bytes_to_regs(usize::MAX), usize::MAX / 2 + 1);
}
