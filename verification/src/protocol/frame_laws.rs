//! What the frame decoder says of every byte of a frame.

use vstd::prelude::*;

use super::frame::{
    after_nibbles, bytes_from, function_name, has_prefix, nibbles, paired, parsed_bytes,
    parsed_hex, single_bytes, whole_words, FrameView,
};
use crate::model::byte_order::word;
use crate::text::{dec, hex4, hex_value, is_hex_digit, is_space};

verus! {

// ---------------------------------------------------------------------------
// Text
// ---------------------------------------------------------------------------

/// The value of a hexadecimal digit, in either case.
pub open spec fn nibble(c: char) -> int {
    if '0' <= c <= '9' {
        c as int - '0' as int
    } else if 'a' <= c <= 'f' {
        c as int - 'a' as int + 10
    } else {
        c as int - 'A' as int + 10
    }
}

/// True for the hexadecimal digits, in either case.
pub open spec fn hex_digit(c: char) -> bool {
    '0' <= c <= '9' || 'a' <= c <= 'f' || 'A' <= c <= 'F'
}

/// True for texts of hexadecimal digits and white space.
pub open spec fn spaced_hex(s: Seq<char>) -> bool {
    forall|i: int| 0 <= i < s.len() ==> hex_digit(#[trigger] s[i]) || is_space(s[i])
}

proof fn lemma_no_space_is_x(c: char)
    ensures
        hex_digit(c) == is_hex_digit(c),
        hex_digit(c) ==> nibble(c) == hex_value(c) && 0 <= nibble(c) < 16,
        hex_digit(c) || is_space(c) ==> c != 'x' && c != 'X',
        is_space(c) ==> !hex_digit(c),
{
}

proof fn lemma_joined(a: Seq<char>, b: Seq<char>)
    requires
        spaced_hex(a),
        b.len() > 0 ==> b[0] != 'x' && b[0] != 'X',
    ensures
        nibbles(a) is Some,
        nibbles(a + b) == after_nibbles(nibbles(a)->0, nibbles(b)),
    decreases a.len(),
{
    let s = a + b;
    if a.len() == 0 {
        assert(s =~= b);
        if nibbles(b) is Some {
            assert(nibbles(a)->0 + nibbles(b)->0 =~= nibbles(b)->0);
        }
    } else {
        let t = a.skip(1);
        assert forall|i: int| 0 <= i < t.len() implies hex_digit(#[trigger] t[i]) || is_space(
            t[i],
        ) by {
            assert(t[i] == a[i + 1]);
        }
        lemma_joined(t, b);
        assert(s.skip(1) =~= t + b);
        lemma_no_space_is_x(a[0]);
        if a.len() > 1 {
            lemma_no_space_is_x(a[1]);
            assert(s[1] == a[1]);
        }
        assert(!has_prefix(a) && !has_prefix(s));
        if is_hex_digit(a[0]) && nibbles(b) is Some {
            let d = seq![hex_value(a[0]) as u8];
            assert(d + (nibbles(t)->0 + nibbles(b)->0) =~= (d + nibbles(t)->0) + nibbles(b)->0);
        }
    }
}

/// White space in a frame is passed over.
pub proof fn lemma_white_space_passed_over(a: Seq<char>, c: char, b: Seq<char>)
    requires
        spaced_hex(a),
        is_space(c),
        spaced_hex(b),
    ensures
        parsed_hex(a + seq![c] + b) == parsed_hex(a + b),
{
    let tail = seq![c] + b;
    lemma_no_space_is_x(c);
    if b.len() > 0 {
        lemma_no_space_is_x(b[0]);
    }
    assert(tail.skip(1) =~= b);
    assert(nibbles(tail) == nibbles(b));
    lemma_joined(a, tail);
    lemma_joined(a, b);
    assert(a + seq![c] + b =~= a + tail);
}

/// A `0x` or `0X` in a frame is passed over.
pub proof fn lemma_prefix_passed_over(a: Seq<char>, x: char, b: Seq<char>)
    requires
        spaced_hex(a),
        x == 'x' || x == 'X',
        spaced_hex(b),
    ensures
        parsed_hex(a + seq!['0', x] + b) == parsed_hex(a + b),
{
    let tail = seq!['0', x] + b;
    if b.len() > 0 {
        lemma_no_space_is_x(b[0]);
    }
    assert(tail.skip(2) =~= b);
    assert(nibbles(tail) == nibbles(b));
    lemma_joined(a, tail);
    lemma_joined(a, b);
    assert(a + seq!['0', x] + b =~= a + tail);
}

proof fn lemma_digit_row(s: Seq<char>)
    requires
        forall|i: int| 0 <= i < s.len() ==> hex_digit(#[trigger] s[i]),
    ensures
        nibbles(s) == Some(Seq::new(s.len(), |i: int| nibble(s[i]) as u8)),
    decreases s.len(),
{
    let all = Seq::new(s.len(), |i: int| nibble(s[i]) as u8);
    if s.len() == 0 {
        assert(all =~= seq![]);
    } else {
        let t = s.skip(1);
        assert forall|i: int| 0 <= i < t.len() implies hex_digit(#[trigger] t[i]) by {
            assert(t[i] == s[i + 1]);
        }
        lemma_digit_row(t);
        lemma_no_space_is_x(s[0]);
        if s.len() > 1 {
            lemma_no_space_is_x(s[1]);
        }
        assert(seq![hex_value(s[0]) as u8] + Seq::new(t.len(), |i: int| nibble(t[i]) as u8)
            =~= all);
    }
}

/// A row of hexadecimal digits stands for bytes, two digits each, the high one
/// first; an odd number of them is refused.
pub proof fn lemma_digit_pairs(s: Seq<char>)
    requires
        s.len() > 0,
        forall|i: int| 0 <= i < s.len() ==> hex_digit(#[trigger] s[i]),
    ensures
        parsed_hex(s) == (if s.len() % 2 == 0 {
            parsed_bytes(
                Seq::new(
                    s.len() / 2,
                    |i: int| (16 * nibble(s[2 * i]) + nibble(s[2 * i + 1])) as u8,
                ),
            )
        } else {
            Err("十六进制长度必须为偶数"@)
        }),
{
    lemma_digit_row(s);
    let d = Seq::new(s.len(), |i: int| nibble(s[i]) as u8);
    let bytes = Seq::new(
        s.len() / 2,
        |i: int| (16 * nibble(s[2 * i]) + nibble(s[2 * i + 1])) as u8,
    );
    assert forall|i: int| 0 <= i < bytes.len() implies paired(d)[i] == bytes[i] by {
        lemma_no_space_is_x(s[2 * i]);
        lemma_no_space_is_x(s[2 * i + 1]);
        assert(hex_digit(s[2 * i]) && hex_digit(s[2 * i + 1]));
    }
    assert(paired(d) =~= bytes);
}

/// Without a digit there is no frame.
pub proof fn lemma_no_digits(s: Seq<char>)
    requires
        forall|i: int| 0 <= i < s.len() ==> is_space(#[trigger] s[i]),
    ensures
        parsed_hex(s) == Err::<FrameView, Seq<char>>("请输入十六进制数据"@),
    decreases s.len(),
{
    if s.len() > 0 {
        let t = s.skip(1);
        assert forall|i: int| 0 <= i < t.len() implies is_space(#[trigger] t[i]) by {
            assert(t[i] == s[i + 1]);
        }
        lemma_no_digits(t);
        lemma_no_space_is_x(s[0]);
        assert(nibbles(s) == nibbles(t));
    }
}

/// Any other character is refused.
pub proof fn lemma_other_characters(s: Seq<char>, k: int)
    requires
        0 <= k < s.len(),
        !hex_digit(s[k]),
        !is_space(s[k]),
        s[k] != 'x',
        s[k] != 'X',
    ensures
        parsed_hex(s) == Err::<FrameView, Seq<char>>("包含非十六进制字符"@),
{
    lemma_refused(s, k);
}

proof fn lemma_refused(s: Seq<char>, k: int)
    requires
        0 <= k < s.len(),
        !hex_digit(s[k]),
        !is_space(s[k]),
        s[k] != 'x',
        s[k] != 'X',
    ensures
        nibbles(s) is None,
    decreases s.len(),
{
    lemma_no_space_is_x(s[0]);
    lemma_no_space_is_x(s[k]);
    if has_prefix(s) {
        assert(k != 0 && k != 1);
        lemma_refused(s.skip(2), k - 2);
    } else if k > 0 {
        lemma_refused(s.skip(1), k - 1);
    }
}

// ---------------------------------------------------------------------------
// Bytes
// ---------------------------------------------------------------------------

/// A frame has a header of seven bytes and a function code: transaction id,
/// protocol id and length of two bytes each, the high one first, and the unit
/// id. Shorter ones are refused.
pub proof fn lemma_header(bytes: Seq<u8>)
    ensures
        bytes.len() < 8 ==> parsed_bytes(bytes) == Err::<FrameView, Seq<char>>(
            "帧过短：至少需要 MBAP(7 字节) + 功能码(1 字节)"@,
        ),
        bytes.len() >= 8 && parsed_bytes(bytes) is Err ==> parsed_bytes(bytes)->Err_0
            == "帧过短：数据区不完整"@,
        bytes.len() >= 8 && parsed_bytes(bytes) is Ok ==> {
            let frame = parsed_bytes(bytes)->Ok_0;
            &&& frame.tx_id == bytes[0] * 256 + bytes[1]
            &&& frame.proto_id == bytes[2] * 256 + bytes[3]
            &&& frame.length == bytes[4] * 256 + bytes[5]
            &&& frame.unit_id == bytes[6]
            &&& frame.function_code == bytes[7]
            &&& frame.name == function_name(bytes[7])
        },
{
}

/// The names of the function codes.
pub proof fn lemma_function_names(fc: u8)
    ensures
        function_name(0x01) == "读线圈 (Read Coils)"@,
        function_name(0x02) == "读离散输入 (Read Discrete Inputs)"@,
        function_name(0x03) == "读保持寄存器 (Read Holding Registers)"@,
        function_name(0x04) == "读输入寄存器 (Read Input Registers)"@,
        function_name(0x05) == "写单个线圈 (Write Single Coil)"@,
        function_name(0x06) == "写单个寄存器 (Write Single Register)"@,
        function_name(0x0F) == "写多个线圈 (Write Multiple Coils)"@,
        function_name(0x10) == "写多个寄存器 (Write Multiple Registers)"@,
        fc == 0 || 0x07 <= fc <= 0x0E || fc > 0x10 ==> function_name(fc) == "未知功能码"@,
{
}

/// A frame of a read whose length is 6 is a request: it says the address and the
/// quantity and has no data. It takes twelve bytes.
pub proof fn lemma_read_request(bytes: Seq<u8>)
    requires
        bytes.len() >= 8,
        0x01 <= bytes[7] <= 0x04,
        bytes[4] * 256 + bytes[5] == 6,
    ensures
        parsed_bytes(bytes) is Ok <==> bytes.len() >= 12,
        bytes.len() >= 12 ==> {
            let frame = parsed_bytes(bytes)->Ok_0;
            &&& frame.words.len() == 0
            &&& frame.note == "请求：起始地址 "@ + dec((bytes[8] * 256 + bytes[9]) as nat)
                + "，数量 "@ + dec((bytes[10] * 256 + bytes[11]) as nat)
        },
{
}

/// A response to a read of registers, 0x03 or 0x04 alike, has one word for each
/// two of its data bytes, the high one first. The data starts at the tenth byte
/// and goes on for three bytes less than the length says, or to the end of the
/// frame.
pub proof fn lemma_register_response(bytes: Seq<u8>, i: int)
    requires
        bytes.len() >= 8,
        bytes[7] == 0x03 || bytes[7] == 0x04,
        bytes[4] * 256 + bytes[5] != 6,
    ensures
        parsed_bytes(bytes) is Ok <==> bytes.len() >= 9,
        bytes.len() >= 9 ==> {
            let frame = parsed_bytes(bytes)->Ok_0;
            let length = bytes[4] * 256 + bytes[5];
            let said = if length > 3 {
                length - 3
            } else {
                0
            };
            let there = if said < bytes.len() - 9 {
                said
            } else {
                bytes.len() - 9
            };
            &&& frame.words.len() == there / 2
            &&& 0 <= i < there / 2 ==> frame.words[i] == bytes[9 + 2 * i] * 256 + bytes[10 + 2 * i]
            &&& frame.note == "响应："@ + dec(said as nat) + " 字节 = "@ + dec((there / 2) as nat)
                + " 个寄存器（"@ + (if bytes[7] == 0x03 {
                "保持"@
            } else {
                "输入"@
            }) + "寄存器）"@
        },
{
    if bytes.len() >= 9 {
        let length = bytes[4] * 256 + bytes[5];
        assert(word(bytes[4], bytes[5]) == length);
        let said = if length > 3 {
            length - 3
        } else {
            0
        };
        let data = bytes_from(bytes, 9, said);
        if 0 <= i < data.len() / 2 {
            assert(data[2 * i] == bytes[9 + 2 * i] && data[2 * i + 1] == bytes[10 + 2 * i]);
            assert(whole_words(data)[i] == word(data[2 * i], data[2 * i + 1]));
        }
    }
}

/// A response to a read of bits, 0x01 or 0x02 alike, has one word for each of
/// its data bytes.
pub proof fn lemma_bit_response(bytes: Seq<u8>, i: int)
    requires
        bytes.len() >= 8,
        bytes[7] == 0x01 || bytes[7] == 0x02,
        bytes[4] * 256 + bytes[5] != 6,
    ensures
        parsed_bytes(bytes) is Ok <==> bytes.len() >= 9,
        bytes.len() >= 9 ==> {
            let frame = parsed_bytes(bytes)->Ok_0;
            let length = bytes[4] * 256 + bytes[5];
            let said = if length > 3 {
                length - 3
            } else {
                0
            };
            let there = if said < bytes.len() - 9 {
                said
            } else {
                bytes.len() - 9
            };
            &&& frame.words.len() == there
            &&& 0 <= i < there ==> frame.words[i] == bytes[9 + i]
            &&& frame.note == "响应：位数据 "@ + dec(said as nat) + " 字节（"@ + (if bytes[7]
                == 0x01 {
                "线圈"@
            } else {
                "离散输入"@
            }) + "）"@
        },
{
    if bytes.len() >= 9 {
        let length = bytes[4] * 256 + bytes[5];
        assert(word(bytes[4], bytes[5]) == length);
        let said = if length > 3 {
            length - 3
        } else {
            0
        };
        let data = bytes_from(bytes, 9, said);
        if 0 <= i < data.len() {
            assert(single_bytes(data)[i] == bytes[9 + i]);
        }
    }
}

/// A frame that writes one cell has the word written, and says it in
/// hexadecimal; of a coil it says whether it goes on or off.
pub proof fn lemma_single_write(bytes: Seq<u8>)
    requires
        bytes.len() >= 8,
        bytes[7] == 0x05 || bytes[7] == 0x06,
    ensures
        parsed_bytes(bytes) is Ok <==> bytes.len() >= 12,
        bytes.len() >= 12 ==> {
            let frame = parsed_bytes(bytes)->Ok_0;
            let w = (bytes[10] * 256 + bytes[11]) as u16;
            &&& frame.words == seq![w]
            &&& frame.note == if bytes[7] == 0x06 {
                "写单个寄存器：值 0x"@ + hex4(w) + "（16 位）"@
            } else {
                "写单个线圈："@ + (if bytes[10] == 0xFF && bytes[11] == 0 {
                    "ON"@
                } else if bytes[10] == 0 && bytes[11] == 0 {
                    "OFF"@
                } else {
                    "非法线圈值"@
                }) + " (0x"@ + hex4(w) + ")"@
            }
        },
{
}

/// A frame that answers a write of several cells has a length of 6, says how
/// many were written and has no data. It takes twelve bytes.
pub proof fn lemma_multiple_response(bytes: Seq<u8>)
    requires
        bytes.len() >= 8,
        bytes[7] == 0x0F || bytes[7] == 0x10,
        bytes[4] * 256 + bytes[5] == 6,
    ensures
        parsed_bytes(bytes) is Ok <==> bytes.len() >= 12,
        bytes.len() >= 12 ==> {
            let frame = parsed_bytes(bytes)->Ok_0;
            &&& frame.words.len() == 0
            &&& frame.note == "响应：已写入 "@ + dec((bytes[10] * 256 + bytes[11]) as nat) + (
            if bytes[7] == 0x10 {
                " 个寄存器"@
            } else {
                " 个线圈"@
            })
        },
{
}

/// A request to write several registers has one word for each two data bytes,
/// one to write several coils one word for each. The data starts at the
/// fourteenth byte and goes on for as many bytes as the thirteenth says, or to
/// the end of the frame.
pub proof fn lemma_multiple_request(bytes: Seq<u8>, i: int)
    requires
        bytes.len() >= 8,
        bytes[7] == 0x0F || bytes[7] == 0x10,
        bytes[4] * 256 + bytes[5] != 6,
    ensures
        parsed_bytes(bytes) is Ok <==> bytes.len() >= 13,
        bytes.len() >= 13 ==> {
            let frame = parsed_bytes(bytes)->Ok_0;
            let there = if bytes[12] < bytes.len() - 13 {
                bytes[12] as int
            } else {
                bytes.len() - 13
            };
            let quantity = dec((bytes[10] * 256 + bytes[11]) as nat);
            if bytes[7] == 0x10 {
                &&& frame.words.len() == there / 2
                &&& 0 <= i < there / 2 ==> frame.words[i] == bytes[13 + 2 * i] * 256 + bytes[14 + 2
                    * i]
                &&& frame.note == "请求：起始地址 "@ + dec((bytes[8] * 256 + bytes[9]) as nat)
                    + "，数量 "@ + quantity + "，"@ + dec(bytes[12] as nat) + " 字节数据"@
            } else {
                &&& frame.words.len() == there
                &&& 0 <= i < there ==> frame.words[i] == bytes[13 + i]
                &&& frame.note == "请求：数量 "@ + quantity + "，"@ + dec(bytes[12] as nat)
                    + " 字节位数据"@
            }
        },
{
    if bytes.len() >= 13 {
        assert(word(bytes[4], bytes[5]) == bytes[4] * 256 + bytes[5]);
        let data = bytes_from(bytes, 13, bytes[12] as int);
        if 0 <= i < data.len() / 2 {
            assert(data[2 * i] == bytes[13 + 2 * i] && data[2 * i + 1] == bytes[14 + 2 * i]);
            assert(whole_words(data)[i] == word(data[2 * i], data[2 * i + 1]));
        }
        if 0 <= i < data.len() {
            assert(single_bytes(data)[i] == bytes[13 + i]);
        }
    }
}

/// A frame of any other function has one word for each two bytes after its
/// function code.
pub proof fn lemma_other_function(bytes: Seq<u8>, i: int)
    requires
        bytes.len() >= 8,
        bytes[7] == 0 || 0x07 <= bytes[7] <= 0x0E || bytes[7] > 0x10,
    ensures
        parsed_bytes(bytes) is Ok,
        ({
            let frame = parsed_bytes(bytes)->Ok_0;
            let n = (bytes.len() - 8) / 2;
            &&& frame.words.len() == n
            &&& 0 <= i < n ==> frame.words[i] == bytes[8 + 2 * i] * 256 + bytes[9 + 2 * i]
            &&& frame.note == "数据区："@ + dec(n as nat) + " 个寄存器（按原始字节解析）"@
        }),
{
    let data = bytes.skip(8);
    if 0 <= i < data.len() / 2 {
        assert(data[2 * i] == bytes[8 + 2 * i] && data[2 * i + 1] == bytes[9 + 2 * i]);
        assert(whole_words(data)[i] == word(data[2 * i], data[2 * i + 1]));
    }
}

/// The frame that carries registers, read with 0x03 or 0x04, parses to exactly
/// those registers.
pub proof fn lemma_registers_parse_back(header: Seq<u8>, fc: u8, words: Seq<u16>)
    requires
        header.len() == 7,
        fc == 0x03 || fc == 0x04,
        1 <= words.len() <= 125,
        header[4] == 0,
        header[5] == 3 + 2 * words.len(),
    ensures
        ({
            let data = Seq::new(
                2 * words.len(),
                |i: int|
                    if i % 2 == 0 {
                        (words[i / 2] / 256) as u8
                    } else {
                        (words[i / 2] % 256) as u8
                    },
            );
            let frame = parsed_bytes(header + seq![fc, (2 * words.len()) as u8] + data);
            frame is Ok && frame->Ok_0.words == words
        }),
{
    let data = Seq::new(
        2 * words.len(),
        |i: int|
            if i % 2 == 0 {
                (words[i / 2] / 256) as u8
            } else {
                (words[i / 2] % 256) as u8
            },
    );
    let bytes = header + seq![fc, (2 * words.len()) as u8] + data;
    let frame = parsed_bytes(bytes)->Ok_0;
    lemma_register_response(bytes, 0);
    assert forall|i: int| 0 <= i < words.len() implies frame.words[i] == words[i] by {
        lemma_register_response(bytes, i);
        assert((2 * i) / 2 == i && (2 * i) % 2 == 0);
        assert((2 * i + 1) / 2 == i && (2 * i + 1) % 2 == 1);
        assert(bytes[9 + 2 * i] == data[2 * i] && bytes[10 + 2 * i] == data[2 * i + 1]);
    }
    assert(frame.words =~= words);
}

/// An `x` or `X` that is no prefix is passed over too.
pub proof fn lemma_lone_x_passed_over(a: Seq<char>, x: char, b: Seq<char>)
    requires
        spaced_hex(a),
        a.len() > 0 ==> a.last() != '0',
        x == 'x' || x == 'X',
        spaced_hex(b),
    ensures
        parsed_hex(a + seq![x] + b) == parsed_hex(a + b),
{
    lemma_x_skipped(a, x, b);
}

proof fn lemma_x_skipped(a: Seq<char>, x: char, b: Seq<char>)
    requires
        spaced_hex(a),
        a.len() > 0 ==> a.last() != '0',
        x == 'x' || x == 'X',
        spaced_hex(b),
    ensures
        nibbles(a + seq![x] + b) == nibbles(a + b),
    decreases a.len(),
{
    let s = a + seq![x] + b;
    let r = a + b;
    if b.len() > 0 {
        lemma_no_space_is_x(b[0]);
    }
    if a.len() == 0 {
        assert(s.skip(1) =~= b);
        assert(r =~= b);
        assert(!has_prefix(s));
    } else {
        let t = a.skip(1);
        assert forall|i: int| 0 <= i < t.len() implies hex_digit(#[trigger] t[i]) || is_space(
            t[i],
        ) by {
            assert(t[i] == a[i + 1]);
        }
        assert(t.len() > 0 ==> t.last() == a.last());
        lemma_x_skipped(t, x, b);
        assert(s.skip(1) =~= t + seq![x] + b);
        assert(r.skip(1) =~= t + b);
        lemma_no_space_is_x(a[0]);
        if a.len() > 1 {
            lemma_no_space_is_x(a[1]);
            assert(s[1] == a[1] && r[1] == a[1]);
        } else {
            assert(a[0] == a.last());
        }
        assert(!has_prefix(s) && !has_prefix(r));
    }
}

} // verus!
