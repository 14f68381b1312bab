//! Byte orders and typed values.

use iot_mock::model::{bytes_to_regs, encode_string_fixed, ByteOrder, DataWidth, ValueType};

/// A known 32-bit value with four distinct bytes: 0x12 0x34 0x56 0x78.
const V: u32 = 0x1234_5678;

#[test]
fn byte_order_abcd_encode() {
    assert_eq!(ByteOrder::Abcd.encode_u32(V), [0x1234, 0x5678]);
}

#[test]
fn byte_order_cdab_encode() {
    // Register0 = low word first.
    assert_eq!(ByteOrder::Cdab.encode_u32(V), [0x5678, 0x1234]);
}

#[test]
fn byte_order_badc_encode() {
    // Word-swap within each word: 0x1234 -> 0x3412, 0x5678 -> 0x7856.
    assert_eq!(ByteOrder::Badc.encode_u32(V), [0x3412, 0x7856]);
}

#[test]
fn byte_order_dcba_encode() {
    // Byte + word swap: [0x1234] -> [0x7856], [0x5678] -> [0x3412].
    assert_eq!(ByteOrder::Dcba.encode_u32(V), [0x7856, 0x3412]);
}

#[test]
fn byte_order_round_trip_all_orders() {
    for order in ByteOrder::ALL {
        let words = order.encode_u32(V);
        assert_eq!(
            order.decode_u32(words),
            V,
            "round-trip failed for {:?}",
            order
        );
    }
}

#[test]
fn byte_order_exact_wire_patterns() {
    // ABCD should read back as Big-Endian across the two registers.
    assert_eq!(ByteOrder::Abcd.decode_u32([0x1234, 0x5678]), 0x1234_5678);
    // CDAB: register order swapped.
    assert_eq!(ByteOrder::Cdab.decode_u32([0x5678, 0x1234]), 0x1234_5678);
    // BADC: each register byte-swapped.
    assert_eq!(ByteOrder::Badc.decode_u32([0x3412, 0x7856]), 0x1234_5678);
    // DCBA: byte + word swapped.
    assert_eq!(ByteOrder::Dcba.decode_u32([0x7856, 0x3412]), 0x1234_5678);
}

#[test]
fn data_width_registers_and_bits() {
    assert_eq!(DataWidth::Bits16.registers(), 1);
    assert_eq!(DataWidth::Bits16.bits(), 16);
    assert_eq!(DataWidth::Bits32.registers(), 2);
    assert_eq!(DataWidth::Bits32.bits(), 32);
}

#[test]
fn value_type_fixed_registers() {
    assert_eq!(ValueType::Uint16.fixed_registers(), Some(1));
    assert_eq!(ValueType::Int16.fixed_registers(), Some(1));
    assert_eq!(ValueType::Uint32.fixed_registers(), Some(2));
    assert_eq!(ValueType::Float32.fixed_registers(), Some(2));
    assert_eq!(ValueType::String.fixed_registers(), None);
}

#[test]
fn value_type_uint16_round_trip() {
    let words = ValueType::Uint16
        .encode_text("12345", ByteOrder::Abcd, 1)
        .unwrap();
    assert_eq!(words, vec![12345]);
    assert_eq!(
        ValueType::Uint16.decode_words(&words, ByteOrder::Abcd),
        "12345"
    );
}

#[test]
fn value_type_int32_round_trip_with_byte_order() {
    for bo in ByteOrder::ALL {
        let words = ValueType::Int32.encode_text("-123456789", bo, 2).unwrap();
        assert_eq!(words.len(), 2);
        assert_eq!(
            ValueType::Int32.decode_words(&words, bo),
            "-123456789",
            "byte order {:?}",
            bo
        );
    }
}

#[test]
fn value_type_float32_round_trip() {
    let words = ValueType::Float32
        .encode_text("2.5", ByteOrder::Abcd, 2)
        .unwrap();
    let decoded = ValueType::Float32
        .decode_words(&words, ByteOrder::Abcd)
        .parse::<f32>()
        .unwrap();
    assert!((decoded - 2.5).abs() < 1e-4);
}

#[test]
fn value_type_string_auto_fill_and_char() {
    // "A" -> single char; with pad -> 1 register holding "A\0" i.e. 0x4100.
    let words = ValueType::String
        .encode_text("A", ByteOrder::Abcd, 8)
        .unwrap();
    assert_eq!(words.len(), 1);
    assert_eq!(words[0], 0x4100);
    assert_eq!(ValueType::String.decode_words(&words, ByteOrder::Abcd), "A");

    // UTF-8 two bytes "中" (E4 B8 AD) -> with pad -> 2 registers.
    let words = ValueType::String
        .encode_text("中", ByteOrder::Abcd, 8)
        .unwrap();
    assert_eq!(words.len(), 2);
    assert_eq!(
        ValueType::String.decode_words(&words, ByteOrder::Abcd),
        "中"
    );

    // Multi-char ASCII string.
    let words = ValueType::String
        .encode_text("Hi", ByteOrder::Abcd, 8)
        .unwrap();
    assert_eq!(words, vec![0x4869]);
    assert_eq!(
        ValueType::String.decode_words(&words, ByteOrder::Abcd),
        "Hi"
    );
}

#[test]
fn value_type_string_too_long_rejected() {
    assert!(ValueType::String
        .encode_text("0123456789abcdef", ByteOrder::Abcd, 4)
        .is_err());
}

#[test]
fn value_type_invalid_number_rejected() {
    assert!(ValueType::Uint16
        .encode_text("abc", ByteOrder::Abcd, 1)
        .is_err());
    assert!(ValueType::Float32
        .encode_text("12.5x", ByteOrder::Abcd, 2)
        .is_err());
}

#[test]
fn bytes_to_regs_rounds_up() {
    assert_eq!(bytes_to_regs(1), 1);
    assert_eq!(bytes_to_regs(2), 1);
    assert_eq!(bytes_to_regs(7), 4);
    assert_eq!(bytes_to_regs(8), 4);
    assert_eq!(bytes_to_regs(5), 3);
}

#[test]
fn encode_string_fixed_pads_to_width() {
    // String(7) -> 7 bytes -> 4 registers, short "Hi" NUL-padded.
    let words = encode_string_fixed("Hi", ByteOrder::Abcd, 8, 7).unwrap();
    assert_eq!(words.len(), 4);
    assert_eq!(words, vec![0x4869, 0x0000, 0x0000, 0x0000]);
    assert_eq!(
        ValueType::String.decode_words(&words, ByteOrder::Abcd),
        "Hi"
    );
}

#[test]
fn encode_string_fixed_rejects_overflow() {
    // "HelloWorld" is 10 bytes > 7-byte buffer.
    assert!(encode_string_fixed("HelloWorld", ByteOrder::Abcd, 8, 7).is_err());
    // 8 registers needed for String(16); budget is 4 -> rejected.
    assert!(encode_string_fixed("abc", ByteOrder::Abcd, 4, 16).is_err());
}

#[test]
fn encode_string_fixed_respects_byte_order() {
    for bo in ByteOrder::ALL {
        let words = encode_string_fixed("AB", bo, 8, 2).unwrap();
        assert_eq!(words.len(), 1);
        assert_eq!(ValueType::String.decode_words(&words, bo), "AB");
    }
}

#[test]
fn byte_order_u64_round_trip_all_orders() {
    let v: u64 = 0x0123_4567_89AB_CDEF;
    for bo in ByteOrder::ALL {
        let words = bo.encode_u64(v);
        assert_eq!(bo.decode_u64(words), v, "round-trip failed for {:?}", bo);
    }
}

#[test]
fn byte_order_u64_exact_wire_pattern() {
    // ABCD: high u32 in registers 0..2, low u32 in 2..4.
    let v: u64 = 0x1234_5678_9ABC_DEF0;
    assert_eq!(
        ByteOrder::Abcd.encode_u64(v),
        [0x1234, 0x5678, 0x9ABC, 0xDEF0]
    );
    // CDAB: each 32-bit half word-swapped; high half first.
    assert_eq!(
        ByteOrder::Cdab.encode_u64(v),
        [0x5678, 0x1234, 0xDEF0, 0x9ABC]
    );
}

#[test]
fn value_type_64bit_round_trip() {
    for bo in ByteOrder::ALL {
        // UInt64
        let words = ValueType::Uint64
            .encode_text("123456789012345", bo, 4)
            .unwrap();
        assert_eq!(
            ValueType::Uint64.decode_words(&words, bo),
            "123456789012345",
            "{:?}",
            bo
        );
        // Int64 (negative)
        let words = ValueType::Int64
            .encode_text("-98765432109876543", bo, 4)
            .unwrap();
        assert_eq!(
            ValueType::Int64.decode_words(&words, bo),
            "-98765432109876543",
            "{:?}",
            bo
        );
        // Double
        let words = ValueType::Double.encode_text("3.14159", bo, 4).unwrap();
        let decoded = ValueType::Double
            .decode_words(&words, bo)
            .parse::<f64>()
            .unwrap();
        assert!((decoded - 3.14159).abs() < 1e-5, "{:?}", bo);
    }
}

#[test]
fn value_type_64bit_register_width() {
    assert_eq!(ValueType::Uint64.fixed_registers(), Some(4));
    assert_eq!(ValueType::Int64.fixed_registers(), Some(4));
    assert_eq!(ValueType::Double.fixed_registers(), Some(4));
    assert_eq!(ValueType::Uint64.bits(), Some(64));
    assert_eq!(ValueType::Int64.bits(), Some(64));
    assert_eq!(ValueType::Double.bits(), Some(64));
}
