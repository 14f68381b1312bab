//! Decoding a Modbus TCP frame written in hexadecimal.

use vstd::prelude::*;

use super::modbus::byte_words;
use crate::model::byte_order::{join_bytes, word};
use crate::text::{
    chars_of, dec, hex2, hex4, hex_bytes, hex_char, hex_digit_value, hex_value, is_hex_digit, is_space,
    is_whitespace, push_dec, push_hex4,
};

verus! {

/// A parsed Modbus TCP frame used by the hex-decoder dialog.
#[derive(Clone, Debug)]
pub struct ModbusFrameParse {
    /// MBAP transaction id.
    pub tx_id: u16,
    /// MBAP protocol id (0 for Modbus).
    pub proto_id: u16,
    /// MBAP length (bytes following the length field).
    pub length: u16,
    /// MBAP unit id.
    pub unit_id: u8,
    /// Function code.
    pub function_code: u8,
    /// Human-readable function code name.
    pub name: &'static str,
    /// What the request or response says (e.g. `请求：起始地址 0，数量 1`).
    pub note: String,
    /// Register data words extracted from the payload (empty for pure requests).
    pub words: Vec<u16>,
}

// ---------------------------------------------------------------------------
// Model
// ---------------------------------------------------------------------------

/// What a parsed frame says.
#[verifier::ext_equal]
pub struct FrameView {
    pub tx_id: u16,
    pub proto_id: u16,
    pub length: u16,
    pub unit_id: u8,
    pub function_code: u8,
    pub name: Seq<char>,
    pub note: Seq<char>,
    pub words: Seq<u16>,
}

impl View for ModbusFrameParse {
    type V = FrameView;

    open spec fn view(&self) -> FrameView {
        FrameView {
            tx_id: self.tx_id,
            proto_id: self.proto_id,
            length: self.length,
            unit_id: self.unit_id,
            function_code: self.function_code,
            name: self.name@,
            note: self.note@,
            words: self.words@,
        }
    }
}

/// `s` starts with a `0x` prefix.
pub open spec fn has_prefix(s: Seq<char>) -> bool {
    s.len() > 1 && s[0] == '0' && (s[1] == 'x' || s[1] == 'X')
}

/// The values of the hexadecimal digits in `s`. White space, `0x` prefixes and
/// other `x` are passed over; `None` when there is anything else.
pub open spec fn nibbles(s: Seq<char>) -> Option<Seq<u8>>
    decreases s.len(),
{
    if s.len() == 0 {
        Some(seq![])
    } else if has_prefix(s) {
        nibbles(s.skip(2))
    } else if is_hex_digit(s[0]) {
        after_nibbles(seq![hex_value(s[0]) as u8], nibbles(s.skip(1)))
    } else if is_space(s[0]) || s[0] == 'x' || s[0] == 'X' {
        nibbles(s.skip(1))
    } else {
        None
    }
}

/// `first` with the rest behind it, if there is one.
pub open spec fn after_nibbles(first: Seq<u8>, rest: Option<Seq<u8>>) -> Option<Seq<u8>> {
    match rest {
        Some(d) => Some(first + d),
        None => None,
    }
}

/// The bytes of pairs of digits.
pub open spec fn paired(digits: Seq<u8>) -> Seq<u8> {
    Seq::new(digits.len() / 2, |i: int| (digits[2 * i] * 16 + digits[2 * i + 1]) as u8)
}

/// The name of a function code.
pub open spec fn function_name(fc: u8) -> Seq<char> {
    if fc == 0x01 {
        "读线圈 (Read Coils)"@
    } else if fc == 0x02 {
        "读离散输入 (Read Discrete Inputs)"@
    } else if fc == 0x03 {
        "读保持寄存器 (Read Holding Registers)"@
    } else if fc == 0x04 {
        "读输入寄存器 (Read Input Registers)"@
    } else if fc == 0x05 {
        "写单个线圈 (Write Single Coil)"@
    } else if fc == 0x06 {
        "写单个寄存器 (Write Single Register)"@
    } else if fc == 0x0F {
        "写多个线圈 (Write Multiple Coils)"@
    } else if fc == 0x10 {
        "写多个寄存器 (Write Multiple Registers)"@
    } else {
        "未知功能码"@
    }
}

/// Up to `n` bytes from `from` on.
pub open spec fn bytes_from(bytes: Seq<u8>, from: int, n: int) -> Seq<u8> {
    bytes.subrange(
        from,
        if from + n < bytes.len() {
            from + n
        } else {
            bytes.len() as int
        },
    )
}

/// Bytes as words, a trailing odd byte dropped.
pub open spec fn whole_words(data: Seq<u8>) -> Seq<u16> {
    byte_words(data, data.len() / 2)
}

/// Each byte as a word of its own.
pub open spec fn single_bytes(data: Seq<u8>) -> Seq<u16> {
    Seq::new(data.len(), |i: int| data[i] as u16)
}

/// The bytes that the length field leaves for data in a response to a read.
pub open spec fn data_length(length: int) -> int {
    if length > 3 {
        length - 3
    } else {
        0
    }
}

/// The number of bytes that a frame needs for its function code and length.
pub open spec fn needed(fc: u8, length: int) -> int {
    if 0x01 <= fc <= 0x04 {
        if length == 6 {
            12
        } else {
            9
        }
    } else if fc == 0x05 || fc == 0x06 {
        12
    } else if fc == 0x0F || fc == 0x10 {
        if length == 6 {
            12
        } else {
            13
        }
    } else {
        8
    }
}

/// What a frame that has the bytes it needs says after its function code: a note
/// and the data words.
pub open spec fn payload(bytes: Seq<u8>, fc: u8, length: int) -> (Seq<char>, Seq<u16>) {
    let addr = word(bytes[8], bytes[9]);
    let second = word(bytes[10], bytes[11]);
    let bc = data_length(length);
    let read = bytes_from(bytes, 9, bc);
    let sent = bytes_from(bytes, 13, bytes[12] as int);
    if 0x01 <= fc <= 0x04 && length == 6 {
        ("请求：起始地址 "@ + dec(addr as nat) + "，数量 "@ + dec(second as nat), seq![])
    } else if fc == 0x03 || fc == 0x04 {
        let area = if fc == 0x03 {
            "保持"@
        } else {
            "输入"@
        };
        (
            "响应："@ + dec(bc as nat) + " 字节 = "@ + dec(whole_words(read).len())
                + " 个寄存器（"@ + area + "寄存器）"@,
            whole_words(read),
        )
    } else if fc == 0x01 || fc == 0x02 {
        let area = if fc == 0x01 {
            "线圈"@
        } else {
            "离散输入"@
        };
        (
            "响应：位数据 "@ + dec(bc as nat) + " 字节（"@ + area + "）"@,
            single_bytes(read),
        )
    } else if fc == 0x06 {
        ("写单个寄存器：值 0x"@ + hex4(second) + "（16 位）"@, seq![second])
    } else if fc == 0x05 {
        let s = if second == 0xFF00 {
            "ON"@
        } else if second == 0x0000 {
            "OFF"@
        } else {
            "非法线圈值"@
        };
        ("写单个线圈："@ + s + " (0x"@ + hex4(second) + ")"@, seq![second])
    } else if fc == 0x10 {
        if length == 6 {
            ("响应：已写入 "@ + dec(second as nat) + " 个寄存器"@, seq![])
        } else {
            (
                "请求：起始地址 "@ + dec(addr as nat) + "，数量 "@ + dec(second as nat) + "，"@
                    + dec(bytes[12] as nat) + " 字节数据"@,
                whole_words(sent),
            )
        }
    } else if fc == 0x0F {
        if length == 6 {
            ("响应：已写入 "@ + dec(second as nat) + " 个线圈"@, seq![])
        } else {
            (
                "请求：数量 "@ + dec(second as nat) + "，"@ + dec(bytes[12] as nat)
                    + " 字节位数据"@,
                single_bytes(sent),
            )
        }
    } else {
        let words = whole_words(bytes.skip(8));
        ("数据区："@ + dec(words.len()) + " 个寄存器（按原始字节解析）"@, words)
    }
}

/// What the bytes of a frame say, or what is wrong with them.
pub open spec fn parsed_bytes(bytes: Seq<u8>) -> Result<FrameView, Seq<char>> {
    let length = word(bytes[4], bytes[5]);
    if bytes.len() < 8 {
        Err("帧过短：至少需要 MBAP(7 字节) + 功能码(1 字节)"@)
    } else if bytes.len() < needed(bytes[7], length as int) {
        Err("帧过短：数据区不完整"@)
    } else {
        let (note, words) = payload(bytes, bytes[7], length as int);
        Ok(
            FrameView {
                tx_id: word(bytes[0], bytes[1]),
                proto_id: word(bytes[2], bytes[3]),
                length,
                unit_id: bytes[6],
                function_code: bytes[7],
                name: function_name(bytes[7]),
                note,
                words,
            },
        )
    }
}

/// What a frame in hexadecimal says, or what is wrong with it.
pub open spec fn parsed_hex(hex: Seq<char>) -> Result<FrameView, Seq<char>> {
    match nibbles(hex) {
        None => Err("包含非十六进制字符"@),
        Some(digits) => if digits.len() == 0 {
            Err("请输入十六进制数据"@)
        } else if digits.len() % 2 != 0 {
            Err("十六进制长度必须为偶数"@)
        } else {
            parsed_bytes(paired(digits))
        },
    }
}

/// The frame or the message that a parse gave.
pub open spec fn frame_outcome(r: Result<ModbusFrameParse, String>) -> Result<
    FrameView,
    Seq<char>,
> {
    match r {
        Ok(frame) => Ok(frame@),
        Err(message) => Err(message@),
    }
}

// ---------------------------------------------------------------------------
// Parsing
// ---------------------------------------------------------------------------

/// Human-readable name for a Modbus function code.
pub fn function_code_name(fc: u8) -> (s: &'static str)
    ensures
        s@ == function_name(fc),
{
    match fc {
        0x01 => "读线圈 (Read Coils)",
        0x02 => "读离散输入 (Read Discrete Inputs)",
        0x03 => "读保持寄存器 (Read Holding Registers)",
        0x04 => "读输入寄存器 (Read Input Registers)",
        0x05 => "写单个线圈 (Write Single Coil)",
        0x06 => "写单个寄存器 (Write Single Register)",
        0x0F => "写多个线圈 (Write Multiple Coils)",
        0x10 => "写多个寄存器 (Write Multiple Registers)",
        _ => "未知功能码",
    }
}

/// The values of the hexadecimal digits in `hex`.
fn read_nibbles(hex: &str) -> (r: Option<Vec<u8>>)
    ensures
        match r {
            Some(digits) => nibbles(hex@) == Some(digits@) && forall|i: int|
                0 <= i < digits@.len() ==> #[trigger] digits@[i] < 16,
            None => nibbles(hex@) is None,
        },
{
    let chars = chars_of(hex);
    let n: usize = chars.len();
    let mut digits: Vec<u8> = Vec::new();
    let mut i: usize = 0;
    proof {
        assert(chars@.skip(0) =~= chars@);
        if nibbles(chars@) is Some {
            assert(seq![] + nibbles(chars@)->0 =~= nibbles(chars@)->0);
        }
    }
    while i < n
        invariant
            i <= n == chars@.len(),
            chars@ == hex@,
            nibbles(hex@) == after_nibbles(digits@, nibbles(chars@.skip(i as int))),
            forall|k: int| 0 <= k < digits@.len() ==> #[trigger] digits@[k] < 16,
        decreases n - i,
    {
        let c = chars[i];
        let ghost rest = chars@.skip(i as int);
        proof {
            assert(rest.skip(1) =~= chars@.skip(i + 1));
            assert(i + 1 < n ==> rest.skip(2) =~= chars@.skip(i + 2));
        }
        if c == '0' && i + 1 < n && (chars[i + 1] == 'x' || chars[i + 1] == 'X') {
            i = i + 2;
        } else {
            match hex_digit_value(c) {
                Some(d) => {
                    let ghost before = digits@;
                    digits.push(d);
                    proof {
                        let tail = nibbles(rest.skip(1));
                        if tail is Some {
                            assert(before + (seq![d] + tail->0) =~= digits@ + tail->0);
                        }
                    }
                    i = i + 1;
                },
                None => {
                    if is_whitespace(c) || c == 'x' || c == 'X' {
                        i = i + 1;
                    } else {
                        return None;
                    }
                },
            }
        }
    }
    proof {
        assert(digits@ + seq![] =~= digits@);
    }
    Some(digits)
}

/// The bytes of pairs of digits.
fn pair_digits(digits: &Vec<u8>) -> (bytes: Vec<u8>)
    requires
        forall|i: int| 0 <= i < digits@.len() ==> #[trigger] digits@[i] < 16,
    ensures
        bytes@ == paired(digits@),
{
    let all: usize = digits.len();
    let n: usize = all / 2;
    let mut bytes: Vec<u8> = Vec::new();
    let mut i: usize = 0;
    while i < n
        invariant
            all == digits@.len(),
            i <= n == all / 2,
            forall|k: int| 0 <= k < digits@.len() ==> #[trigger] digits@[k] < 16,
            bytes@ == paired(digits@).take(i as int),
        decreases n - i,
    {
        bytes.push(digits[2 * i] * 16 + digits[2 * i + 1]);
        proof {
            assert(bytes@ =~= paired(digits@).take(i + 1));
        }
        i = i + 1;
    }
    proof {
        assert(bytes@ =~= paired(digits@));
    }
    bytes
}

/// Up to `n` bytes from `from` on.
fn slice_from(bytes: &[u8], from: usize, n: usize) -> (data: Vec<u8>)
    requires
        from <= bytes@.len(),
    ensures
        data@ == bytes_from(bytes@, from as int, n as int),
{
    let end: usize = if n < bytes.len() - from {
        from + n
    } else {
        bytes.len()
    };
    let mut data: Vec<u8> = Vec::new();
    let mut i: usize = from;
    while i < end
        invariant
            from <= i <= end <= bytes@.len(),
            data@ == bytes@.subrange(from as int, i as int),
        decreases end - i,
    {
        data.push(bytes[i]);
        proof {
            assert(data@ =~= bytes@.subrange(from as int, i + 1));
        }
        i = i + 1;
    }
    data
}

/// Interpret big-endian bytes as 16-bit register words (drops a trailing odd
/// byte).
pub fn bytes_to_words(data: &[u8]) -> (words: Vec<u16>)
    ensures
        words@ == whole_words(data@),
{
    let all: usize = data.len();
    let n: usize = all / 2;
    let mut words: Vec<u16> = Vec::new();
    let mut i: usize = 0;
    while i < n
        invariant
            all == data@.len(),
            i <= n == all / 2,
            words@ == whole_words(data@).take(i as int),
        decreases n - i,
    {
        words.push(join_bytes(data[2 * i], data[2 * i + 1]));
        proof {
            assert(words@ =~= whole_words(data@).take(i + 1));
        }
        i = i + 1;
    }
    proof {
        assert(words@ =~= whole_words(data@));
    }
    words
}

/// Each byte as a word of its own.
fn widen_bytes(data: &[u8]) -> (words: Vec<u16>)
    ensures
        words@ == single_bytes(data@),
{
    let mut words: Vec<u16> = Vec::new();
    let mut i: usize = 0;
    while i < data.len()
        invariant
            i <= data@.len(),
            words@ == single_bytes(data@).take(i as int),
        decreases data@.len() - i,
    {
        words.push(data[i] as u16);
        proof {
            assert(words@ =~= single_bytes(data@).take(i + 1));
        }
        i = i + 1;
    }
    proof {
        assert(words@ =~= single_bytes(data@));
    }
    words
}

/// Extract the note and the register data words from the payload.
pub fn parse_payload(bytes: &[u8], fc: u8, length: usize) -> (r: (String, Vec<u16>))
    requires
        bytes@.len() >= 8,
        bytes@.len() >= needed(fc, length as int),
    ensures
        (r.0@, r.1@) == payload(bytes@, fc, length as int),
{
    let bc: usize = if length > 3 {
        length - 3
    } else {
        0
    };
    let none: Vec<u16> = Vec::new();
    proof {
        assert(none@ =~= Seq::<u16>::empty());
    }
    match fc {
        0x01 | 0x02 | 0x03 | 0x04 => {
            if length == 6 {
                let mut note = "请求：起始地址 ".to_string();
                push_dec(&mut note, join_bytes(bytes[8], bytes[9]) as u64);
                note.append("，数量 ");
                push_dec(&mut note, join_bytes(bytes[10], bytes[11]) as u64);
                (note, none)
            } else if fc == 0x03 || fc == 0x04 {
                let words = bytes_to_words(&slice_from(bytes, 9, bc));
                let mut note = "响应：".to_string();
                push_dec(&mut note, bc as u64);
                note.append(" 字节 = ");
                push_dec(&mut note, words.len() as u64);
                note.append(" 个寄存器（");
                note.append(
                    if fc == 0x03 {
                        "保持"
                    } else {
                        "输入"
                    },
                );
                note.append("寄存器）");
                (note, words)
            } else {
                let words = widen_bytes(&slice_from(bytes, 9, bc));
                let mut note = "响应：位数据 ".to_string();
                push_dec(&mut note, bc as u64);
                note.append(" 字节（");
                note.append(
                    if fc == 0x01 {
                        "线圈"
                    } else {
                        "离散输入"
                    },
                );
                note.append("）");
                (note, words)
            }
        },
        0x06 => {
            let v: u16 = join_bytes(bytes[10], bytes[11]);
            let mut note = "写单个寄存器：值 0x".to_string();
            push_hex4(&mut note, v);
            note.append("（16 位）");
            let words: Vec<u16> = vec![v];
            proof {
                assert(words@ =~= seq![v]);
            }
            (note, words)
        },
        0x05 => {
            let v: u16 = join_bytes(bytes[10], bytes[11]);
            let mut note = "写单个线圈：".to_string();
            note.append(
                if v == 0xFF00 {
                    "ON"
                } else if v == 0x0000 {
                    "OFF"
                } else {
                    "非法线圈值"
                },
            );
            note.append(" (0x");
            push_hex4(&mut note, v);
            note.append(")");
            let words: Vec<u16> = vec![v];
            proof {
                assert(words@ =~= seq![v]);
            }
            (note, words)
        },
        0x10 => {
            let qty: u16 = join_bytes(bytes[10], bytes[11]);
            if length == 6 {
                let mut note = "响应：已写入 ".to_string();
                push_dec(&mut note, qty as u64);
                note.append(" 个寄存器");
                (note, none)
            } else {
                let words = bytes_to_words(&slice_from(bytes, 13, bytes[12] as usize));
                let mut note = "请求：起始地址 ".to_string();
                push_dec(&mut note, join_bytes(bytes[8], bytes[9]) as u64);
                note.append("，数量 ");
                push_dec(&mut note, qty as u64);
                note.append("，");
                push_dec(&mut note, bytes[12] as u64);
                note.append(" 字节数据");
                (note, words)
            }
        },
        0x0F => {
            let qty: u16 = join_bytes(bytes[10], bytes[11]);
            if length == 6 {
                let mut note = "响应：已写入 ".to_string();
                push_dec(&mut note, qty as u64);
                note.append(" 个线圈");
                (note, none)
            } else {
                let words = widen_bytes(&slice_from(bytes, 13, bytes[12] as usize));
                let mut note = "请求：数量 ".to_string();
                push_dec(&mut note, qty as u64);
                note.append("，");
                push_dec(&mut note, bytes[12] as u64);
                note.append(" 字节位数据");
                (note, words)
            }
        },
        _ => {
            let data = slice_from(bytes, 8, bytes.len());
            proof {
                assert(data@ =~= bytes@.skip(8));
            }
            let words = bytes_to_words(&data);
            let mut note = "数据区：".to_string();
            push_dec(&mut note, words.len() as u64);
            note.append(" 个寄存器（按原始字节解析）");
            (note, words)
        },
    }
}

/// The number of bytes that a frame needs for its function code and length.
fn bytes_needed(fc: u8, length: u16) -> (n: usize)
    ensures
        n == needed(fc, length as int),
{
    match fc {
        0x01 | 0x02 | 0x03 | 0x04 => if length == 6 {
            12
        } else {
            9
        },
        0x05 | 0x06 => 12,
        0x0F | 0x10 => if length == 6 {
            12
        } else {
            13
        },
        _ => 8,
    }
}

/// Parse a whitespace / `0x`-separable hex string of a full Modbus TCP frame
/// (MBAP 7 bytes + PDU) into its header fields, function code and register data.
///
/// The MBAP `length` field is used to tell a *request* from a *response* and to
/// locate the register data region. Returns an error for malformed input.
pub fn parse_modbus_hex(hex: &str) -> (r: Result<ModbusFrameParse, String>)
    ensures
        frame_outcome(r) == parsed_hex(hex@),
{
    let digits = match read_nibbles(hex) {
        Some(digits) => digits,
        None => {
            return Err("包含非十六进制字符".to_string());
        },
    };
    if digits.len() == 0 {
        return Err("请输入十六进制数据".to_string());
    }
    if digits.len() % 2 != 0 {
        return Err("十六进制长度必须为偶数".to_string());
    }
    let bytes = pair_digits(&digits);
    if bytes.len() < 8 {
        return Err("帧过短：至少需要 MBAP(7 字节) + 功能码(1 字节)".to_string());
    }
    let length: u16 = join_bytes(bytes[4], bytes[5]);
    let fc: u8 = bytes[7];
    if bytes.len() < bytes_needed(fc, length) {
        return Err("帧过短：数据区不完整".to_string());
    }
    let (note, words) = parse_payload(&bytes, fc, length as usize);
    Ok(
        ModbusFrameParse {
            tx_id: join_bytes(bytes[0], bytes[1]),
            proto_id: join_bytes(bytes[2], bytes[3]),
            length,
            unit_id: bytes[6],
            function_code: fc,
            name: function_code_name(fc),
            note,
            words,
        },
    )
}

// ---------------------------------------------------------------------------
// Laws
// ---------------------------------------------------------------------------

/// `s` holds hexadecimal digits and blanks only.
spec fn plain(s: Seq<char>) -> bool {
    forall|i: int| 0 <= i < s.len() ==> is_hex_digit(#[trigger] s[i]) || s[i] == ' '
}

proof fn lemma_nibbles_concat(a: Seq<char>, b: Seq<char>)
    requires
        plain(a),
        plain(b),
        nibbles(b) is Some,
    ensures
        nibbles(a) is Some,
        nibbles(a + b) == Some(nibbles(a)->0 + nibbles(b)->0),
    decreases a.len(),
{
    if a.len() == 0 {
        assert(a + b =~= b);
        assert(nibbles(a)->0 + nibbles(b)->0 =~= nibbles(b)->0);
    } else {
        let t = a.skip(1);
        let s = a + b;
        assert forall|i: int| 0 <= i < t.len() implies is_hex_digit(#[trigger] t[i]) || t[i]
            == ' ' by {
            assert(t[i] == a[i + 1]);
        }
        lemma_nibbles_concat(t, b);
        assert(s.skip(1) =~= t + b);
        assert(s[0] == a[0]);
        assert(!has_prefix(a)) by {
            if a.len() > 1 {
                assert(is_hex_digit(a[1]) || a[1] == ' ');
            }
        }
        assert(!has_prefix(s)) by {
            if s.len() > 1 {
                if a.len() > 1 {
                    assert(s[1] == a[1]);
                    assert(is_hex_digit(a[1]) || a[1] == ' ');
                } else {
                    assert(s[1] == b[0]);
                    assert(is_hex_digit(b[0]) || b[0] == ' ');
                }
            }
        }
        if is_hex_digit(a[0]) {
            let d = seq![hex_value(a[0]) as u8];
            assert(d + (nibbles(t)->0 + nibbles(b)->0) =~= (d + nibbles(t)->0) + nibbles(b)->0);
        }
    }
}

proof fn lemma_byte_nibbles(b: u8)
    ensures
        plain(hex2(b)),
        nibbles(hex2(b)) == Some(seq![b / 16, b % 16]),
{
    let s = hex2(b);
    let (h, l) = ((b / 16) as nat, (b % 16) as nat);
    assert(is_hex_digit(hex_char(h)) && hex_value(hex_char(h)) == h);
    assert(is_hex_digit(hex_char(l)) && hex_value(hex_char(l)) == l);
    assert(hex_char(l) != 'x' && hex_char(l) != 'X');
    let t = s.skip(1);
    assert(t =~= seq![hex_char(l)]);
    assert(t.skip(1) =~= Seq::<char>::empty());
    reveal_with_fuel(nibbles, 3);
    assert(nibbles(t.skip(1)) == Some(Seq::<u8>::empty()));
    assert(seq![l as u8] + Seq::<u8>::empty() =~= seq![l as u8]);
    assert(nibbles(t) == Some(seq![l as u8]));
    assert(seq![h as u8] + seq![l as u8] =~= seq![b / 16, b % 16]);
}

/// The digits of bytes.
spec fn digits_of(bytes: Seq<u8>) -> Seq<u8> {
    Seq::new(
        2 * bytes.len(),
        |i: int|
            if i % 2 == 0 {
                bytes[i / 2] / 16
            } else {
                bytes[i / 2] % 16
            },
    )
}

proof fn lemma_hex_nibbles(bytes: Seq<u8>)
    ensures
        plain(hex_bytes(bytes)),
        nibbles(hex_bytes(bytes)) == Some(digits_of(bytes)),
    decreases bytes.len(),
{
    if bytes.len() == 0 {
        assert(digits_of(bytes) =~= Seq::<u8>::empty());
    } else if bytes.len() == 1 {
        lemma_byte_nibbles(bytes[0]);
        assert(digits_of(bytes) =~= seq![bytes[0] / 16, bytes[0] % 16]);
    } else {
        let init = bytes.drop_last();
        let b = bytes.last();
        lemma_hex_nibbles(init);
        lemma_byte_nibbles(b);
        let blank = seq![' '];
        assert(blank.skip(1) =~= Seq::<char>::empty());
        reveal_with_fuel(nibbles, 2);
        assert(nibbles(blank) == Some(Seq::<u8>::empty()));
        lemma_nibbles_concat(blank, hex2(b));
        let tail = blank + hex2(b);
        assert(Seq::<u8>::empty() + seq![b / 16, b % 16] =~= seq![b / 16, b % 16]);
        assert(plain(tail));
        lemma_nibbles_concat(hex_bytes(init), tail);
        assert(hex_bytes(bytes) =~= hex_bytes(init) + tail);
        assert(digits_of(bytes) =~= digits_of(init) + seq![b / 16, b % 16]);
        assert(plain(hex_bytes(bytes)));
    }
}

/// A frame rendered in hexadecimal parses as the frame itself: what the message
/// log shows can be pasted into the decoder.
pub proof fn lemma_parse_rendered(bytes: Seq<u8>)
    requires
        bytes.len() > 0,
    ensures
        parsed_hex(hex_bytes(bytes)) == parsed_bytes(bytes),
{
    lemma_hex_nibbles(bytes);
    let d = digits_of(bytes);
    assert forall|i: int| 0 <= i < bytes.len() implies paired(d)[i] == bytes[i] by {
        assert(d[2 * i] == bytes[i] / 16);
        assert(d[2 * i + 1] == bytes[i] % 16);
    }
    assert(paired(d) =~= bytes);
}

} // verus!
