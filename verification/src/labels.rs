//! Texts that the window shows, from plain values.

use vstd::prelude::*;

use crate::hex_list::spelled_hex;
use crate::model::byte_order::ByteOrder;
use crate::model::store::Area;
use crate::protocol::frame::ModbusFrameParse;
use crate::protocol::modbus::DEFAULT_PORT;
use crate::text::{dec, hex4, hex_char, int_in, parse_unsigned, push_dec, push_hex4, zeros};

verus! {

// ---------------------------------------------------------------------------
// Hexadecimal numerals
// ---------------------------------------------------------------------------

/// The hexadecimal numeral of `n`, upper case, without leading zeros.
pub open spec fn hex_numeral(n: nat) -> Seq<char>
    decreases n,
{
    if n < 16 {
        seq![hex_char(n)]
    } else {
        hex_numeral(n / 16).push(hex_char(n % 16))
    }
}

/// `0x` and the hexadecimal numeral of `n`, with leading zeros up to `width`
/// digits.
pub open spec fn prefixed_hex(n: nat, width: nat) -> Seq<char> {
    let digits = hex_numeral(n);
    seq!['0', 'x'] + if digits.len() < width {
        zeros((width - digits.len()) as nat) + digits
    } else {
        digits
    }
}

fn push_hex_digits(out: &mut String, n: u64, width: usize)
    ensures
        final(out)@ == old(out)@ + (if hex_numeral(n as nat).len() < width {
            zeros((width - hex_numeral(n as nat).len()) as nat) + hex_numeral(n as nat)
        } else {
            hex_numeral(n as nat)
        }),
    decreases n, width,
{
    let ghost before = out@;
    if n >= 16 || width > 1 {
        let rest: usize = if width > 1 {
            width - 1
        } else {
            0
        };
        push_hex_digits(out, n / 16, rest);
    }
    let d: u8 = (n % 16) as u8;
    out.push(
        if d < 10 {
            (48 + d) as char
        } else {
            (55 + d) as char
        },
    );
    proof {
        assert(out@ =~= before + (if hex_numeral(n as nat).len() < width {
            zeros((width - hex_numeral(n as nat).len()) as nat) + hex_numeral(n as nat)
        } else {
            hex_numeral(n as nat)
        }));
    }
}

/// Append `0x` and the hexadecimal numeral of `n`, with leading zeros up to
/// `width` digits.
pub fn push_prefixed_hex(out: &mut String, n: u64, width: usize)
    ensures
        final(out)@ == old(out)@ + prefixed_hex(n as nat, width as nat),
{
    let ghost before = out@;
    out.push('0');
    out.push('x');
    push_hex_digits(out, n, width);
    proof {
        assert(out@ =~= before + prefixed_hex(n as nat, width as nat));
    }
}

// ---------------------------------------------------------------------------
// Register table
// ---------------------------------------------------------------------------

/// The value column of a row: the bit, or the word in hexadecimal and decimal.
pub fn cell_text(area: Area, value: u16) -> (s: String)
    ensures
        s@ == (if area.holds_bits() {
            dec(value as nat)
        } else {
            "0x"@ + hex4(value) + "  ("@ + dec(value as nat) + ")"@
        }),
{
    if area.is_bit() {
        let mut s = String::new();
        push_dec(&mut s, value as u64);
        proof {
            assert(s@ =~= dec(value as nat));
        }
        s
    } else {
        let mut s = "0x".to_string();
        push_hex4(&mut s, value);
        s.append("  (");
        push_dec(&mut s, value as u64);
        s.append(")");
        s
    }
}

// ---------------------------------------------------------------------------
// Edit dialog
// ---------------------------------------------------------------------------

/// Title of the edit dialog.
pub fn edit_title(area_name: &str, addr: usize) -> (s: String)
    ensures
        s@ == "编辑寄存器 · "@ + area_name@ + " · 地址 "@ + prefixed_hex(addr as nat, 4),
{
    let mut s = "编辑寄存器 · ".to_string();
    s.append(area_name);
    s.append(" · 地址 ");
    push_prefixed_hex(&mut s, addr as u64, 4);
    s
}

/// Size line of the edit dialog.
pub fn size_text(regs: usize, byte_len: usize) -> (s: String)
    ensures
        s@ == dec(regs as nat) + " 寄存器 · "@ + dec(byte_len as nat) + " 字节"@,
{
    let mut s = String::new();
    push_dec(&mut s, regs as u64);
    proof {
        assert(s@ =~= dec(regs as nat));
    }
    s.append(" 寄存器 · ");
    push_dec(&mut s, byte_len as u64);
    s.append(" 字节");
    s
}

/// Footer of the edit dialog: the registers that the value spans.
pub fn edit_footer(addr: usize, regs: usize, byte_len: usize, type_label: &str) -> (s: String)
    requires
        regs >= 1,
        addr + regs - 1 <= usize::MAX,
    ensures
        s@ == "占用 "@ + dec(regs as nat) + " 个寄存器 (地址 "@ + prefixed_hex(addr as nat, 4)
            + " ~ "@ + prefixed_hex((addr + regs - 1) as nat, 4) + ") · "@ + dec(byte_len as nat)
            + " 字节 · "@ + type_label@,
{
    let mut s = "占用 ".to_string();
    push_dec(&mut s, regs as u64);
    s.append(" 个寄存器 (地址 ");
    push_prefixed_hex(&mut s, addr as u64, 4);
    s.append(" ~ ");
    push_prefixed_hex(&mut s, (addr + (regs - 1)) as u64, 4);
    s.append(") · ");
    push_dec(&mut s, byte_len as u64);
    s.append(" 字节 · ");
    s.append(type_label);
    s
}

/// Type and byte order line of the edit dialog.
pub fn preview_text(type_label: &str, order_code: &str) -> (s: String)
    ensures
        s@ == type_label@ + " · 字节序 "@ + order_code@,
{
    let mut s = type_label.to_string();
    s.append(" · 字节序 ");
    s.append(order_code);
    s
}

/// Says how many registers were written.
pub fn written_text(n: usize) -> (s: String)
    ensures
        s@ == "已写入 "@ + dec(n as nat) + " 个寄存器"@,
{
    let mut s = "已写入 ".to_string();
    push_dec(&mut s, n as u64);
    s.append(" 个寄存器");
    s
}

// ---------------------------------------------------------------------------
// Decoder dialog
// ---------------------------------------------------------------------------

/// The header fields of a frame; blanks where there is none.
pub fn frame_header_text(info: &Option<ModbusFrameParse>) -> (s: String)
    ensures
        s@ == (match info {
            Some(f) => "事务 "@ + prefixed_hex(f.tx_id as nat, 4) + " · 协议 "@ + prefixed_hex(
                f.proto_id as nat,
                4,
            ) + " · 长度 "@ + dec(f.length as nat) + " · 单元 "@ + dec(f.unit_id as nat),
            None => "事务  · 协议  · 长度  · 单元 —"@,
        }),
{
    match info {
        Some(f) => {
            let mut s = "事务 ".to_string();
            push_prefixed_hex(&mut s, f.tx_id as u64, 4);
            s.append(" · 协议 ");
            push_prefixed_hex(&mut s, f.proto_id as u64, 4);
            s.append(" · 长度 ");
            push_dec(&mut s, f.length as u64);
            s.append(" · 单元 ");
            push_dec(&mut s, f.unit_id as u64);
            s
        },
        None => "事务  · 协议  · 长度  · 单元 —".to_string(),
    }
}

/// The function code of a frame.
pub fn function_code_text(info: &Option<ModbusFrameParse>) -> (s: String)
    ensures
        s@ == (match info {
            Some(f) => "功能码 "@ + prefixed_hex(f.function_code as nat, 2),
            None => "功能码 —"@,
        }),
{
    match info {
        Some(f) => {
            let mut s = "功能码 ".to_string();
            push_prefixed_hex(&mut s, f.function_code as u64, 2);
            s
        },
        None => "功能码 —".to_string(),
    }
}

// ---------------------------------------------------------------------------
// Protocol cards
// ---------------------------------------------------------------------------

/// The port that an input stands for: the default one where it is no port.
pub fn port_from_text(text: &str) -> (port: u16)
    ensures
        port == (match int_in(text@, 0, 0xFFFF) {
            Some(p) => p,
            None => DEFAULT_PORT as int,
        }),
{
    match parse_unsigned(text, 0xFFFF) {
        Some(p) => p as u16,
        None => DEFAULT_PORT,
    }
}

/// The status line of a server.
pub fn status_text(name: &str, id: &str, state: &str, port: u16, clients: usize) -> (s: String)
    ensures
        s@ == name@ + " ["@ + id@ + "]: "@ + state@ + " (端口 "@ + dec(port as nat) + ") · 连接 "@
            + dec(clients as nat),
{
    let mut s = name.to_string();
    s.append(" [");
    s.append(id);
    s.append("]: ");
    s.append(state);
    s.append(" (端口 ");
    push_dec(&mut s, port as u64);
    s.append(") · 连接 ");
    push_dec(&mut s, clients as u64);
    s
}

/// Says that a server was started.
pub fn started_text(name: &str, port: u16, order: ByteOrder) -> (s: String)
    ensures
        s@ == name@ + " 已启动，监听端口 "@ + dec(port as nat) + " · 字节序 "@ + (match order {
            ByteOrder::Abcd => "ABCD"@,
            ByteOrder::Cdab => "CDAB"@,
            ByteOrder::Badc => "BADC"@,
            ByteOrder::Dcba => "DCBA"@,
        }),
{
    let mut s = name.to_string();
    s.append(" 已启动，监听端口 ");
    push_dec(&mut s, port as u64);
    s.append(" · 字节序 ");
    s.append(order.code());
    s
}

// ---------------------------------------------------------------------------
// Laws
// ---------------------------------------------------------------------------

proof fn lemma_hex_numeral(n: nat)
    ensures
        hex_numeral(n).len() > 0,
        forall|i: int|
            0 <= i < hex_numeral(n).len() ==> '0' <= #[trigger] hex_numeral(n)[i] <= '9' || 'A'
                <= hex_numeral(n)[i] <= 'F',
        spelled_hex(hex_numeral(n)) == n,
        hex_numeral(n)[0] == '0' ==> n == 0,
    decreases n,
{
    let s = hex_numeral(n);
    let d = n % 16;
    assert('0' <= hex_char(d) <= '9' || 'A' <= hex_char(d) <= 'F');
    reveal_with_fuel(Seq::fold_left, 2);
    if n >= 16 {
        let t = hex_numeral(n / 16);
        lemma_hex_numeral(n / 16);
        assert(s.drop_last() =~= t);
        assert(s[0] == t[0]);
        assert forall|i: int| 0 <= i < s.len() implies '0' <= #[trigger] s[i] <= '9' || 'A' <= s[i]
            <= 'F' by {
            if i < t.len() {
                assert(s[i] == t[i]);
            }
        }
    } else {
        assert(s.drop_last() =~= Seq::<char>::empty());
        assert(s.last() == hex_char(n));
    }
}

/// A prefixed numeral is `0x` and upper-case hexadecimal digits that spell its
/// number, at least as many as asked for, with zeros in front only up to that
/// many.
pub proof fn lemma_prefixed_hex(n: nat, width: nat)
    ensures
        ({
            let s = prefixed_hex(n, width);
            let digits = s.skip(2);
            &&& s.len() >= 3
            &&& s.len() >= 2 + width
            &&& s[0] == '0'
            &&& s[1] == 'x'
            &&& forall|i: int|
                0 <= i < digits.len() ==> '0' <= #[trigger] digits[i] <= '9' || 'A' <= digits[i]
                    <= 'F'
            &&& spelled_hex(digits) == n
            &&& digits.len() > width && digits[0] == '0' ==> n == 0
        }),
{
    let t = hex_numeral(n);
    lemma_hex_numeral(n);
    let s = prefixed_hex(n, width);
    let k: nat = if t.len() < width {
        (width - t.len()) as nat
    } else {
        0
    };
    let digits = s.skip(2);
    assert(digits =~= zeros(k) + t);
    lemma_zeros_spell(k, t);
    assert forall|i: int| 0 <= i < digits.len() implies '0' <= #[trigger] digits[i] <= '9' || 'A'
        <= digits[i] <= 'F' by {
        if i >= k {
            assert(digits[i] == t[i - k]);
        }
    }
}

proof fn lemma_zeros_spell(k: nat, t: Seq<char>)
    ensures
        spelled_hex(zeros(k) + t) == spelled_hex(t),
    decreases k + t.len(),
{
    let s = zeros(k) + t;
    reveal_with_fuel(Seq::fold_left, 2);
    if t.len() > 0 {
        lemma_zeros_spell(k, t.drop_last());
        assert(s.drop_last() =~= zeros(k) + t.drop_last());
        assert(s.last() == t.last());
    } else if k > 0 {
        lemma_zeros_spell((k - 1) as nat, t);
        assert(s.drop_last() =~= zeros((k - 1) as nat) + t);
        assert(s.last() == '0');
    } else {
        assert(s =~= t);
    }
}

} // verus!
