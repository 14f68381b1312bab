//! Typed interpretations of registers: numbers and packed strings as text.

use vstd::prelude::*;
use vstd::utf8::{
    decode_utf8, encode_scalar, encode_utf8, encode_utf8_decode_utf8, encode_utf8_valid_utf8,
    valid_utf8,
};

use super::byte_order::{high, join_bytes, low, split_word, word, ByteOrder};
use crate::float::{FloatKind, Reading};
use crate::text::{
    dec, dec_int, dec_int_text, dec_text, int_in, lemma_dec_int_reads_back, parse_signed,
    parse_unsigned, push_dec,
};

verus! {

/// A typed interpretation of one or more registers.
#[derive(Clone, Copy, PartialEq, Eq, Debug, Structural)]
pub enum ValueType {
    /// 16-bit unsigned (1 register).
    Uint16,
    /// 16-bit signed (1 register).
    Int16,
    /// 32-bit unsigned (2 registers).
    Uint32,
    /// 32-bit signed (2 registers).
    Int32,
    /// 32-bit IEEE-754 float (2 registers).
    Float32,
    /// 64-bit unsigned (4 registers).
    Uint64,
    /// 64-bit signed (4 registers).
    Int64,
    /// 64-bit IEEE-754 double (4 registers).
    Double,
    /// UTF-8 string packed 2 bytes per register (variable register count).
    String,
}

impl Default for ValueType {
    fn default() -> (t: Self)
        ensures
            t == ValueType::Uint16,
    {
        ValueType::Uint16
    }
}

// ---------------------------------------------------------------------------
// Models
// ---------------------------------------------------------------------------

/// The registers or the message that a conversion gave.
pub open spec fn outcome(r: Result<Vec<u16>, String>) -> Result<Seq<u16>, Seq<char>> {
    match r {
        Ok(words) => Ok(words@),
        Err(message) => Err(message@),
    }
}

/// The integer that the two's complement pattern `u` of `modulus` values
/// stands for.
pub open spec fn signed(u: int, modulus: int) -> int {
    if 2 * u >= modulus {
        u - modulus
    } else {
        u
    }
}

/// The two's complement pattern of `v`.
pub open spec fn pattern(v: int, modulus: int) -> int {
    if v < 0 {
        v + modulus
    } else {
        v
    }
}

/// Number of registers that `bytes` bytes take.
pub open spec fn regs_for(bytes: nat) -> nat {
    (bytes + 1) / 2
}

/// `bytes` filled up with NULs to the length `n`.
pub open spec fn padded(bytes: Seq<u8>, n: nat) -> Seq<u8> {
    Seq::new(
        n,
        |i: int|
            if i < bytes.len() {
                bytes[i]
            } else {
                0
            },
    )
}

/// `bytes` without their trailing NULs.
pub open spec fn without_padding(bytes: Seq<u8>) -> Seq<u8>
    decreases bytes.len(),
{
    if bytes.len() > 0 && bytes.last() == 0 {
        without_padding(bytes.drop_last())
    } else {
        bytes
    }
}

impl ByteOrder {
    /// True for the orders that store the second byte of a pair first.
    pub open spec fn swaps_pair(self) -> bool {
        self is Cdab || self is Dcba
    }

    /// Bytes packed two to a register, NUL-padded to whole registers.
    pub open spec fn pack(self, bytes: Seq<u8>) -> Seq<u16> {
        let all = padded(bytes, 2 * regs_for(bytes.len()));
        Seq::new(
            regs_for(bytes.len()),
            |i: int|
                if self.swaps_pair() {
                    word(all[2 * i + 1], all[2 * i])
                } else {
                    word(all[2 * i], all[2 * i + 1])
                },
        )
    }

    /// The bytes of registers, two from each.
    pub open spec fn unpack(self, words: Seq<u16>) -> Seq<u8> {
        Seq::new(
            2 * words.len(),
            |i: int|
                if (i % 2 == 0) != self.swaps_pair() {
                    high(words[i / 2])
                } else {
                    low(words[i / 2])
                },
        )
    }
}

/// The bytes of the string that registers hold.
pub open spec fn packed_string(words: Seq<u16>, order: ByteOrder) -> Seq<u8> {
    without_padding(order.unpack(words))
}

/// What lossy decoding makes of bytes that are not UTF-8 throughout.
pub uninterp spec fn utf8_lossy(bytes: Seq<u8>) -> Seq<char>;

/// Bytes as text.
pub open spec fn string_text(bytes: Seq<u8>) -> Seq<char> {
    if valid_utf8(bytes) {
        decode_utf8(bytes)
    } else {
        utf8_lossy(bytes)
    }
}

/// Says that a string needs more registers than there are.
pub open spec fn too_many_registers(needed: nat, max_regs: nat) -> Seq<char> {
    "字符串需占用 "@ + dec(needed) + " 个寄存器，超出上限 "@ + dec(max_regs) + " 个"@
}

/// The registers of a string that takes as many as it needs.
pub open spec fn stored_string(s: Seq<char>, order: ByteOrder, max_regs: nat) -> Result<
    Seq<u16>,
    Seq<char>,
> {
    let bytes = encode_utf8(s);
    if regs_for(bytes.len()) > max_regs {
        Err(too_many_registers(regs_for(bytes.len()), max_regs))
    } else {
        Ok(order.pack(bytes))
    }
}

/// The registers of a string in a buffer of `max_bytes` bytes.
pub open spec fn fixed_string(
    s: Seq<char>,
    order: ByteOrder,
    max_regs: nat,
    max_bytes: nat,
) -> Result<Seq<u16>, Seq<char>> {
    let bytes = encode_utf8(s);
    if bytes.len() > max_bytes {
        Err(
            "字符串长度超出上限："@ + dec(bytes.len()) + " 字节 > 上限 "@ + dec(max_bytes)
                + " 字节"@,
        )
    } else if regs_for(max_bytes) > max_regs {
        Err(too_many_registers(regs_for(max_bytes), max_regs))
    } else {
        Ok(order.pack(padded(bytes, max_bytes)))
    }
}

/// The words of an integer read from text, or the message.
pub open spec fn number_or(value: Option<int>, words: spec_fn(int) -> Seq<u16>, message: Seq<char>) -> Result<
    Seq<u16>,
    Seq<char>,
> {
    match value {
        Some(v) => Ok(words(v)),
        None => Err(message),
    }
}

/// The words of a float read from text, or the message.
pub open spec fn float_or(reading: Reading, words: spec_fn(u64) -> Seq<u16>, message: Seq<char>) -> Result<
    Seq<u16>,
    Seq<char>,
> {
    match reading {
        Reading::Invalid => Err(message),
        Reading::NotFinite => Err("浮点数必须为有限值"@),
        Reading::Bits(b) => Ok(words(b)),
    }
}

impl ValueType {
    /// The number of registers of a number; zero for a string.
    pub open spec fn width(self) -> nat {
        match self {
            ValueType::Uint16 | ValueType::Int16 => 1,
            ValueType::Uint32 | ValueType::Int32 | ValueType::Float32 => 2,
            ValueType::Uint64 | ValueType::Int64 | ValueType::Double => 4,
            ValueType::String => 0,
        }
    }

    /// The registers that `text` stands for, or what is wrong with it.
    pub open spec fn encoded(self, text: Seq<char>, order: ByteOrder, max_regs: nat) -> Result<
        Seq<u16>,
        Seq<char>,
    > {
        match self {
            ValueType::Uint16 => number_or(
                int_in(text, 0, 0xFFFF),
                |v: int| seq![v as u16],
                "无效的 UInt16 数值"@,
            ),
            ValueType::Int16 => number_or(
                int_in(text, -0x8000, 0x7FFF),
                |v: int| seq![pattern(v, 0x1_0000) as u16],
                "无效的 Int16 数值"@,
            ),
            ValueType::Uint32 => number_or(
                int_in(text, 0, 0xFFFF_FFFF),
                |v: int| order.words32(v as u32),
                "无效的 UInt32 数值"@,
            ),
            ValueType::Int32 => number_or(
                int_in(text, -0x8000_0000, 0x7FFF_FFFF),
                |v: int| order.words32(pattern(v, 0x1_0000_0000) as u32),
                "无效的 Int32 数值"@,
            ),
            ValueType::Float32 => float_or(
                FloatKind::Single.reading(text),
                |b: u64| order.words32(b as u32),
                "无效的 Float32 数值"@,
            ),
            ValueType::Uint64 => number_or(
                int_in(text, 0, 0xFFFF_FFFF_FFFF_FFFF),
                |v: int| order.words64(v as u64),
                "无效的 UInt64 数值"@,
            ),
            ValueType::Int64 => number_or(
                int_in(text, -0x8000_0000_0000_0000, 0x7FFF_FFFF_FFFF_FFFF),
                |v: int| order.words64(pattern(v, 0x1_0000_0000_0000_0000) as u64),
                "无效的 Int64 数值"@,
            ),
            ValueType::Double => float_or(
                FloatKind::Double.reading(text),
                |b: u64| order.words64(b),
                "无效的 Double 数值"@,
            ),
            ValueType::String => stored_string(text, order, max_regs),
        }
    }

    /// The text of the value that `words` hold.
    pub open spec fn decoded(self, words: Seq<u16>, order: ByteOrder) -> Seq<char> {
        let first = if words.len() > 0 {
            words[0]
        } else {
            0
        };
        let half = order.value32(words[0], words[1]);
        let whole = order.value64(words[0], words[1], words[2], words[3]);
        match self {
            ValueType::Uint16 => dec(first as nat),
            ValueType::Int16 => dec_int(signed(first as int, 0x1_0000)),
            ValueType::Uint32 => dec(half as nat),
            ValueType::Int32 => dec_int(signed(half as int, 0x1_0000_0000)),
            ValueType::Float32 => FloatKind::Single.text(half as nat),
            ValueType::Uint64 => dec(whole as nat),
            ValueType::Int64 => dec_int(signed(whole as int, 0x1_0000_0000_0000_0000)),
            ValueType::Double => FloatKind::Double.text(whole as nat),
            ValueType::String => string_text(packed_string(words, order)),
        }
    }
}

// ---------------------------------------------------------------------------
// Strings
// ---------------------------------------------------------------------------

/// Number of 16-bit registers needed to hold `bytes` bytes (2 bytes per word).
pub fn bytes_to_regs(bytes: usize) -> (n: usize)
    ensures
        n == regs_for(bytes as nat),
{
    bytes / 2 + bytes % 2
}

/// Pack bytes two to a register.
fn pack_bytes(bytes: &Vec<u8>, byte_order: ByteOrder) -> (words: Vec<u16>)
    ensures
        words@ == byte_order.pack(bytes@),
{
    let n: usize = bytes_to_regs(bytes.len());
    let swap = matches!(byte_order, ByteOrder::Cdab | ByteOrder::Dcba);
    let mut words: Vec<u16> = Vec::new();
    let mut i: usize = 0;
    while i < n
        invariant
            i <= n == regs_for(bytes@.len()),
            bytes@.len() <= usize::MAX,
            swap == byte_order.swaps_pair(),
            words@ == byte_order.pack(bytes@).take(i as int),
        decreases n - i,
    {
        let a: u8 = bytes[2 * i];
        let b: u8 = if 2 * i + 1 < bytes.len() {
            bytes[2 * i + 1]
        } else {
            0
        };
        let w: u16 = if swap {
            join_bytes(b, a)
        } else {
            join_bytes(a, b)
        };
        proof {
            let all = byte_order.pack(bytes@);
            assert(all[i as int] == w);
            assert(all.take(i + 1) =~= all.take(i as int).push(w));
        }
        words.push(w);
        i = i + 1;
    }
    proof {
        assert(words@ =~= byte_order.pack(bytes@));
    }
    words
}

/// The message for a string that needs more registers than there are.
fn too_many_registers_text(needed: usize, max_regs: usize) -> (s: String)
    ensures
        s@ == too_many_registers(needed as nat, max_regs as nat),
{
    let mut s = "字符串需占用 ".to_string();
    push_dec(&mut s, needed as u64);
    s.append(" 个寄存器，超出上限 ");
    push_dec(&mut s, max_regs as u64);
    s.append(" 个");
    s
}

/// The bytes of `s`.
fn bytes_of(s: &str) -> (bytes: Vec<u8>)
    ensures
        bytes@ == encode_utf8(s@),
{
    let all = s.as_bytes();
    let mut bytes: Vec<u8> = Vec::new();
    let mut i: usize = 0;
    while i < all.len()
        invariant
            i <= all@.len(),
            bytes@ == all@.take(i as int),
        decreases all@.len() - i,
    {
        bytes.push(all[i]);
        proof {
            assert(bytes@ =~= all@.take(i + 1));
        }
        i = i + 1;
    }
    proof {
        assert(all@.take(all@.len() as int) =~= all@);
    }
    bytes
}

/// Encode a UTF-8 string into registers (2 bytes per register), NUL-padded to
/// whole registers. Fails when the string needs more than `max_regs` of them.
pub fn store_string(s: &str, byte_order: ByteOrder, max_regs: usize) -> (r: Result<
    Vec<u16>,
    String,
>)
    ensures
        outcome(r) == stored_string(s@, byte_order, max_regs as nat),
{
    let bytes = bytes_of(s);
    let n: usize = bytes_to_regs(bytes.len());
    if n > max_regs {
        return Err(too_many_registers_text(n, max_regs));
    }
    Ok(pack_bytes(&bytes, byte_order))
}

/// Encode a UTF-8 string into a fixed-width buffer of `max_bytes` bytes. The
/// value occupies `bytes_to_regs(max_bytes)` registers; a short string is
/// NUL-padded to the full width. Fails when the string is longer than the buffer
/// or the registers would run past `max_regs`.
pub fn encode_string_fixed(
    s: &str,
    byte_order: ByteOrder,
    max_regs: usize,
    max_bytes: usize,
) -> (r: Result<Vec<u16>, String>)
    ensures
        outcome(r) == fixed_string(s@, byte_order, max_regs as nat, max_bytes as nat),
{
    let mut bytes = bytes_of(s);
    let n: usize = bytes.len();
    if n > max_bytes {
        let mut message = "字符串长度超出上限：".to_string();
        push_dec(&mut message, n as u64);
        message.append(" 字节 > 上限 ");
        push_dec(&mut message, max_bytes as u64);
        message.append(" 字节");
        return Err(message);
    }
    let width: usize = bytes_to_regs(max_bytes);
    if width > max_regs {
        return Err(too_many_registers_text(width, max_regs));
    }
    proof {
        assert(bytes@ =~= padded(bytes@, bytes@.len()));
    }
    while bytes.len() < max_bytes
        invariant
            n <= bytes@.len() <= max_bytes,
            n == encode_utf8(s@).len(),
            bytes@ == padded(encode_utf8(s@), bytes@.len()),
        decreases max_bytes - bytes@.len(),
    {
        bytes.push(0);
        proof {
            assert(bytes@ =~= padded(encode_utf8(s@), bytes@.len()));
        }
    }
    Ok(pack_bytes(&bytes, byte_order))
}

/// `String::from_utf8_lossy` gives the text that its bytes encode where they are
/// UTF-8 throughout. Elsewhere it puts replacement characters for what is not;
/// of those only that the bytes alone decide is claimed.
#[verifier::external_body]
fn lossy_text(bytes: &Vec<u8>) -> (s: String)
    ensures
        valid_utf8(bytes@) ==> s@ == decode_utf8(bytes@),
        !valid_utf8(bytes@) ==> s@ == utf8_lossy(bytes@),
{
    String::from_utf8_lossy(bytes).to_string()
}

/// The bytes of the string that registers hold, without trailing NULs.
pub fn string_bytes(words: &[u16], byte_order: ByteOrder) -> (bytes: Vec<u8>)
    ensures
        bytes@ == packed_string(words@, byte_order),
{
    let swap = matches!(byte_order, ByteOrder::Cdab | ByteOrder::Dcba);
    let ghost all = byte_order.unpack(words@);
    let mut bytes: Vec<u8> = Vec::new();
    let mut i: usize = 0;
    while i < words.len()
        invariant
            i <= words@.len(),
            swap == byte_order.swaps_pair(),
            all == byte_order.unpack(words@),
            bytes@ == all.take(2 * i as int),
        decreases words@.len() - i,
    {
        let (hi, lo) = split_word(words[i]);
        if swap {
            bytes.push(lo);
            bytes.push(hi);
        } else {
            bytes.push(hi);
            bytes.push(lo);
        }
        proof {
            assert(bytes@ =~= all.take(2 * (i + 1) as int));
        }
        i = i + 1;
    }
    proof {
        assert(bytes@ =~= all);
    }
    while bytes.len() > 0 && bytes[bytes.len() - 1] == 0
        invariant
            without_padding(bytes@) == without_padding(all),
        decreases bytes@.len(),
    {
        let _ = bytes.pop();
    }
    bytes
}

/// Decode registers holding 2 UTF-8 bytes each back into a string, without
/// trailing NULs.
pub fn load_string(words: &[u16], byte_order: ByteOrder) -> (s: String)
    ensures
        s@ == string_text(packed_string(words@, byte_order)),
{
    let bytes = string_bytes(words, byte_order);
    lossy_text(&bytes)
}

// ---------------------------------------------------------------------------
// Typed values
// ---------------------------------------------------------------------------

/// The pattern of a signed integer of 16 bits.
fn pattern16(v: i64) -> (w: u16)
    requires
        -0x8000 <= v <= 0x7FFF,
    ensures
        w == pattern(v as int, 0x1_0000),
{
    if v < 0 {
        (v + 0x1_0000) as u16
    } else {
        v as u16
    }
}

/// The pattern of a signed integer of 32 bits.
fn pattern32(v: i64) -> (w: u32)
    requires
        -0x8000_0000 <= v <= 0x7FFF_FFFF,
    ensures
        w == pattern(v as int, 0x1_0000_0000),
{
    if v < 0 {
        (v + 0x1_0000_0000) as u32
    } else {
        v as u32
    }
}

/// The pattern of a signed integer of 64 bits.
fn pattern64(v: i64) -> (w: u64)
    ensures
        w == pattern(v as int, 0x1_0000_0000_0000_0000),
{
    if v < 0 {
        (v - i64::MIN) as u64 + 0x8000_0000_0000_0000
    } else {
        v as u64
    }
}

/// The signed integer of a 64-bit pattern.
fn signed64(u: u64) -> (v: i64)
    ensures
        v == signed(u as int, 0x1_0000_0000_0000_0000),
{
    if u >= 0x8000_0000_0000_0000 {
        (u - 0x8000_0000_0000_0000) as i64 + i64::MIN
    } else {
        u as i64
    }
}

/// Two register words as a vector.
fn two(words: [u16; 2]) -> (v: Vec<u16>)
    ensures
        v@ == words@,
{
    let v: Vec<u16> = vec![words[0], words[1]];
    proof {
        assert(v@ =~= words@);
    }
    v
}

/// Four register words as a vector.
fn four(words: [u16; 4]) -> (v: Vec<u16>)
    ensures
        v@ == words@,
{
    let v: Vec<u16> = vec![words[0], words[1], words[2], words[3]];
    proof {
        assert(v@ =~= words@);
    }
    v
}

impl ValueType {
    /// All types, in the order in which they are offered.
    pub const ALL: [ValueType; 9] = [
        ValueType::Uint16,
        ValueType::Int16,
        ValueType::Uint32,
        ValueType::Int32,
        ValueType::Float32,
        ValueType::Uint64,
        ValueType::Int64,
        ValueType::Double,
        ValueType::String,
    ];

    /// Short display label.
    pub fn label(self) -> (s: &'static str)
        ensures
            s@ == (match self {
                ValueType::Uint16 => "UInt16"@,
                ValueType::Int16 => "Int16"@,
                ValueType::Uint32 => "UInt32"@,
                ValueType::Int32 => "Int32"@,
                ValueType::Float32 => "Float32"@,
                ValueType::Uint64 => "UInt64"@,
                ValueType::Int64 => "Int64"@,
                ValueType::Double => "Double"@,
                ValueType::String => "String"@,
            }),
    {
        match self {
            ValueType::Uint16 => "UInt16",
            ValueType::Int16 => "Int16",
            ValueType::Uint32 => "UInt32",
            ValueType::Int32 => "Int32",
            ValueType::Float32 => "Float32",
            ValueType::Uint64 => "UInt64",
            ValueType::Int64 => "Int64",
            ValueType::Double => "Double",
            ValueType::String => "String",
        }
    }

    /// Chinese display label.
    pub fn label_zh(self) -> (s: &'static str)
        ensures
            s@ == (match self {
                ValueType::Uint16 => "无符号16位整数"@,
                ValueType::Int16 => "有符号16位整数"@,
                ValueType::Uint32 => "无符号32位整数"@,
                ValueType::Int32 => "有符号32位整数"@,
                ValueType::Float32 => "32位浮点数"@,
                ValueType::Uint64 => "无符号64位整数"@,
                ValueType::Int64 => "有符号64位整数"@,
                ValueType::Double => "64位双精度浮点数"@,
                ValueType::String => "字符串 / 字符"@,
            }),
    {
        match self {
            ValueType::Uint16 => "无符号16位整数",
            ValueType::Int16 => "有符号16位整数",
            ValueType::Uint32 => "无符号32位整数",
            ValueType::Int32 => "有符号32位整数",
            ValueType::Float32 => "32位浮点数",
            ValueType::Uint64 => "无符号64位整数",
            ValueType::Int64 => "有符号64位整数",
            ValueType::Double => "64位双精度浮点数",
            ValueType::String => "字符串 / 字符",
        }
    }

    /// Register count of a fixed-width type; `None` for variable-length
    /// (string) types.
    pub fn fixed_registers(self) -> (n: Option<usize>)
        ensures
            n == (if self is String { None } else { Some(self.width() as usize) }),
    {
        match self {
            ValueType::Uint16 | ValueType::Int16 => Some(1),
            ValueType::Uint32 | ValueType::Int32 | ValueType::Float32 => Some(2),
            ValueType::Uint64 | ValueType::Int64 | ValueType::Double => Some(4),
            ValueType::String => None,
        }
    }

    /// Number of bits in a fixed-width type.
    pub fn bits(self) -> (n: Option<usize>)
        ensures
            n == (if self is String { None } else { Some((self.width() * 16) as usize) }),
    {
        match self.fixed_registers() {
            Some(n) => Some(n * 16),
            None => None,
        }
    }

    /// Parse `text` for this type and produce the register words, applying
    /// `byte_order`; strings stay within `max_regs` registers.
    pub fn encode_text(self, text: &str, byte_order: ByteOrder, max_regs: usize) -> (r: Result<
        Vec<u16>,
        String,
    >)
        ensures
            outcome(r) == self.encoded(text@, byte_order, max_regs as nat),
    {
        match self {
            ValueType::Uint16 => match parse_unsigned(text, 0xFFFF) {
                Some(v) => {
                    let words: Vec<u16> = vec![v as u16];
                    proof {
                        assert(words@ =~= seq![v as u16]);
                    }
                    Ok(words)
                },
                None => Err("无效的 UInt16 数值".to_string()),
            },
            ValueType::Int16 => match parse_signed(text, 0x7FFF) {
                Some(v) => {
                    let w: u16 = pattern16(v);
                    let words: Vec<u16> = vec![w];
                    proof {
                        assert(words@ =~= seq![w]);
                    }
                    Ok(words)
                },
                None => Err("无效的 Int16 数值".to_string()),
            },
            ValueType::Uint32 => match parse_unsigned(text, 0xFFFF_FFFF) {
                Some(v) => Ok(two(byte_order.encode_u32(v as u32))),
                None => Err("无效的 UInt32 数值".to_string()),
            },
            ValueType::Int32 => match parse_signed(text, 0x7FFF_FFFF) {
                Some(v) => Ok(two(byte_order.encode_u32(pattern32(v)))),
                None => Err("无效的 Int32 数值".to_string()),
            },
            ValueType::Float32 => match FloatKind::Single.read(text) {
                Reading::Invalid => Err("无效的 Float32 数值".to_string()),
                Reading::NotFinite => Err("浮点数必须为有限值".to_string()),
                Reading::Bits(b) => Ok(two(byte_order.encode_u32(b as u32))),
            },
            ValueType::Uint64 => match parse_unsigned(text, 0xFFFF_FFFF_FFFF_FFFF) {
                Some(v) => Ok(four(byte_order.encode_u64(v))),
                None => Err("无效的 UInt64 数值".to_string()),
            },
            ValueType::Int64 => match parse_signed(text, 0x7FFF_FFFF_FFFF_FFFF) {
                Some(v) => Ok(four(byte_order.encode_u64(pattern64(v)))),
                None => Err("无效的 Int64 数值".to_string()),
            },
            ValueType::Double => match FloatKind::Double.read(text) {
                Reading::Invalid => Err("无效的 Double 数值".to_string()),
                Reading::NotFinite => Err("浮点数必须为有限值".to_string()),
                Reading::Bits(b) => Ok(four(byte_order.encode_u64(b))),
            },
            ValueType::String => store_string(text, byte_order, max_regs),
        }
    }

    /// Decode `words` back to a display string for this type.
    pub fn decode_words(self, words: &[u16], byte_order: ByteOrder) -> (s: String)
        requires
            words@.len() >= self.width() || self.width() == 1,
        ensures
            s@ == self.decoded(words@, byte_order),
    {
        let first: u16 = if words.len() > 0 {
            words[0]
        } else {
            0
        };
        match self {
            ValueType::Uint16 => dec_text(first as u64),
            ValueType::Int16 => dec_int_text(
                if first >= 0x8000 {
                    first as i64 - 0x1_0000
                } else {
                    first as i64
                },
            ),
            ValueType::Uint32 => dec_text(byte_order.decode_u32([words[0], words[1]]) as u64),
            ValueType::Int32 => {
                let u: u32 = byte_order.decode_u32([words[0], words[1]]);
                dec_int_text(
                    if u >= 0x8000_0000 {
                        u as i64 - 0x1_0000_0000
                    } else {
                        u as i64
                    },
                )
            },
            ValueType::Float32 => FloatKind::Single.write(
                byte_order.decode_u32([words[0], words[1]]) as u64,
            ),
            ValueType::Uint64 => dec_text(
                byte_order.decode_u64([words[0], words[1], words[2], words[3]]),
            ),
            ValueType::Int64 => dec_int_text(
                signed64(byte_order.decode_u64([words[0], words[1], words[2], words[3]])),
            ),
            ValueType::Double => FloatKind::Double.write(
                byte_order.decode_u64([words[0], words[1], words[2], words[3]]),
            ),
            ValueType::String => load_string(words, byte_order),
        }
    }
}

// ---------------------------------------------------------------------------
// Laws
// ---------------------------------------------------------------------------

impl ValueType {
    /// True when `words` hold a number of this type that text can name: any but
    /// the floats that are not finite.
    pub open spec fn nameable(self, words: Seq<u16>, order: ByteOrder) -> bool {
        match self {
            ValueType::String => false,
            ValueType::Float32 => FloatKind::Single.finite(
                order.value32(words[0], words[1]) as nat,
            ),
            ValueType::Double => FloatKind::Double.finite(
                order.value64(words[0], words[1], words[2], words[3]) as nat,
            ),
            _ => true,
        }
    }

    proof fn lemma_two_words_round_trip(self, words: Seq<u16>, order: ByteOrder, max_regs: nat)
        requires
            words.len() == 2,
            self.width() == 2,
            self.nameable(words, order),
        ensures
            self.encoded(self.decoded(words, order), order, max_regs) == Ok::<
                Seq<u16>,
                Seq<char>,
            >(words),
    {
        let v = order.value32(words[0], words[1]);
        order.lemma_value32_round_trip(words[0], words[1]);
        assert(seq![words[0], words[1]] =~= words);
        assert(order.words32(v) == words);
        match self {
            ValueType::Uint32 => {
                assert(self.decoded(words, order) == dec_int(v as int));
                lemma_dec_int_reads_back(v as int, 0, 0xFFFF_FFFF);
            },
            ValueType::Int32 => {
                let n = signed(v as int, 0x1_0000_0000);
                lemma_dec_int_reads_back(n, -0x8000_0000, 0x7FFF_FFFF);
                assert(pattern(n, 0x1_0000_0000) as u32 == v);
            },
            _ => {
                FloatKind::Single.lemma_text_reads_back(v as nat);
                assert((v as nat as u64) as u32 == v);
            },
        }
    }

    proof fn lemma_four_words_round_trip(self, words: Seq<u16>, order: ByteOrder, max_regs: nat)
        requires
            words.len() == 4,
            self.width() == 4,
            self.nameable(words, order),
        ensures
            self.encoded(self.decoded(words, order), order, max_regs) == Ok::<
                Seq<u16>,
                Seq<char>,
            >(words),
    {
        let v = order.value64(words[0], words[1], words[2], words[3]);
        order.lemma_value64_round_trip(words[0], words[1], words[2], words[3]);
        assert(seq![words[0], words[1], words[2], words[3]] =~= words);
        assert(order.words64(v) == words);
        match self {
            ValueType::Uint64 => {
                assert(self.decoded(words, order) == dec_int(v as int));
                lemma_dec_int_reads_back(v as int, 0, 0xFFFF_FFFF_FFFF_FFFF);
            },
            ValueType::Int64 => {
                let n = signed(v as int, 0x1_0000_0000_0000_0000);
                lemma_dec_int_reads_back(n, -0x8000_0000_0000_0000, 0x7FFF_FFFF_FFFF_FFFF);
                assert(pattern(n, 0x1_0000_0000_0000_0000) as u64 == v);
            },
            _ => {
                FloatKind::Double.lemma_text_reads_back(v as nat);
            },
        }
    }

    /// Encoding the text of registers gives the registers back, for every number
    /// but the floats that are not finite.
    pub proof fn lemma_words_round_trip(self, words: Seq<u16>, order: ByteOrder, max_regs: nat)
        requires
            words.len() == self.width(),
            self.nameable(words, order),
        ensures
            self.encoded(self.decoded(words, order), order, max_regs) == Ok::<
                Seq<u16>,
                Seq<char>,
            >(words),
    {
        let text = self.decoded(words, order);
        match self {
            ValueType::Uint16 => {
                lemma_dec_int_reads_back(words[0] as int, 0, 0xFFFF);
                assert(seq![words[0]] =~= words);
            },
            ValueType::Int16 => {
                lemma_dec_int_reads_back(signed(words[0] as int, 0x1_0000), -0x8000, 0x7FFF);
                assert(seq![words[0]] =~= words);
            },
            ValueType::Uint32 | ValueType::Int32 | ValueType::Float32 => {
                self.lemma_two_words_round_trip(words, order, max_regs);
            },
            ValueType::Uint64 | ValueType::Int64 | ValueType::Double => {
                self.lemma_four_words_round_trip(words, order, max_regs);
            },
            ValueType::String => {},
        }
    }
}

impl ValueType {
    #[verifier::rlimit(40)]
    proof fn lemma_accepted_words(self, text: Seq<char>, order: ByteOrder, max_regs: nat)
        requires
            !(self is String),
            self.encoded(text, order, max_regs) is Ok,
        ensures
            self.encoded(text, order, max_regs)->Ok_0.len() == self.width(),
            self.nameable(self.encoded(text, order, max_regs)->Ok_0, order),
    {
        match self {
            ValueType::Float32 => {
                FloatKind::Single.lemma_reading_is_finite(text);
                let b = FloatKind::Single.reading(text)->Bits_0;
                assert(b as u32 == b);
                order.lemma_words32_round_trip(b as u32);
            },
            ValueType::Double => {
                FloatKind::Double.lemma_reading_is_finite(text);
                let b = FloatKind::Double.reading(text)->Bits_0;
                order.lemma_words64_round_trip(b);
            },
            _ => {},
        }
    }

    /// A number in any accepted spelling, decoded and encoded again, gives the
    /// same registers, as many as the type has.
    pub proof fn lemma_accepted_text(self, text: Seq<char>, order: ByteOrder, max_regs: nat)
        requires
            !(self is String),
            self.encoded(text, order, max_regs) is Ok,
        ensures
            ({
                let words = self.encoded(text, order, max_regs)->Ok_0;
                &&& words.len() == self.width()
                &&& self.encoded(self.decoded(words, order), order, max_regs) == Ok::<
                    Seq<u16>,
                    Seq<char>,
                >(words)
            }),
    {
        self.lemma_accepted_words(text, order, max_regs);
        self.lemma_words_round_trip(
            self.encoded(text, order, max_regs)->Ok_0,
            order,
            max_regs,
        );
    }
}

impl ValueType {
    /// True when `v` is a value of this integer type.
    pub open spec fn holds(self, v: int) -> bool {
        match self {
            ValueType::Uint16 => 0 <= v <= 0xFFFF,
            ValueType::Int16 => -0x8000 <= v <= 0x7FFF,
            ValueType::Uint32 => 0 <= v <= 0xFFFF_FFFF,
            ValueType::Int32 => -0x8000_0000 <= v <= 0x7FFF_FFFF,
            ValueType::Uint64 => 0 <= v <= 0xFFFF_FFFF_FFFF_FFFF,
            ValueType::Int64 => -0x8000_0000_0000_0000 <= v <= 0x7FFF_FFFF_FFFF_FFFF,
            _ => false,
        }
    }

    /// Encoding the numeral of an integer and decoding the registers gives the
    /// numeral back.
    pub proof fn lemma_integer_round_trip(self, v: int, order: ByteOrder, max_regs: nat)
        requires
            self.holds(v),
        ensures
            self.encoded(dec_int(v), order, max_regs) matches Ok(words) && words.len()
                == self.width() && self.decoded(words, order) == dec_int(v),
    {
        match self {
            ValueType::Uint16 => lemma_dec_int_reads_back(v, 0, 0xFFFF),
            ValueType::Int16 => lemma_dec_int_reads_back(v, -0x8000, 0x7FFF),
            ValueType::Uint32 => {
                lemma_dec_int_reads_back(v, 0, 0xFFFF_FFFF);
                order.lemma_words32_round_trip(v as u32);
            },
            ValueType::Int32 => {
                lemma_dec_int_reads_back(v, -0x8000_0000, 0x7FFF_FFFF);
                order.lemma_words32_round_trip(pattern(v, 0x1_0000_0000) as u32);
            },
            ValueType::Uint64 => {
                lemma_dec_int_reads_back(v, 0, 0xFFFF_FFFF_FFFF_FFFF);
                order.lemma_words64_round_trip(v as u64);
            },
            _ => {
                lemma_dec_int_reads_back(v, -0x8000_0000_0000_0000, 0x7FFF_FFFF_FFFF_FFFF);
                order.lemma_words64_round_trip(pattern(v, 0x1_0000_0000_0000_0000) as u64);
            },
        }
    }
}

proof fn lemma_char_not_nul(c: char)
    requires
        c != '\0',
    ensures
        c as u32 != 0,
{
}

/// The UTF-8 encoding of a text that does not end in NUL does not end in a NUL
/// byte.
proof fn lemma_last_byte(s: Seq<char>)
    requires
        s.len() > 0,
        s.last() != '\0',
    ensures
        encode_utf8(s).len() > 0,
        encode_utf8(s).last() != 0,
    decreases s.len(),
{
    let first: char = s[0];
    let c = first as u32;
    let head = encode_scalar(c);
    let rest = encode_utf8(s.drop_first());
    if s.len() == 1 {
        assert(rest =~= Seq::<u8>::empty());
        assert(head + rest =~= head);
        lemma_char_not_nul(first);
        assert((0x80u8 | (c & 0x3F) as u8) != 0u8) by (bit_vector);
        assert(0 < c <= 0x7F ==> (c & 0x7F) as u8 != 0u8) by (bit_vector);
    } else {
        lemma_last_byte(s.drop_first());
        assert((head + rest).last() == rest.last());
    }
}

proof fn lemma_unpack_pack(bytes: Seq<u8>, order: ByteOrder)
    ensures
        order.unpack(order.pack(bytes)) == padded(bytes, 2 * regs_for(bytes.len())),
{
    let all = padded(bytes, 2 * regs_for(bytes.len()));
    let words = order.pack(bytes);
    assert forall|i: int| 0 <= i < all.len() implies order.unpack(words)[i] == all[i] by {
        let k = i / 2;
        assert(i == 2 * k || i == 2 * k + 1);
        let (a, b) = (all[2 * k], all[2 * k + 1]);
        assert(high(word(a, b)) == a && low(word(a, b)) == b);
        assert(high(word(b, a)) == b && low(word(b, a)) == a);
    }
    assert(order.unpack(words) =~= all);
}

proof fn lemma_without_padding(bytes: Seq<u8>, n: nat)
    requires
        bytes.len() <= n,
        bytes.len() > 0 ==> bytes.last() != 0,
    ensures
        without_padding(padded(bytes, n)) == bytes,
    decreases n,
{
    let all = padded(bytes, n);
    if bytes.len() < n {
        assert(all.drop_last() =~= padded(bytes, (n - 1) as nat));
        lemma_without_padding(bytes, (n - 1) as nat);
    } else {
        assert(all =~= bytes);
    }
}

/// A text that does not end in NUL, stored in a buffer of any width that it fits
/// in, is the text that the registers hold.
proof fn lemma_packed_text(s: Seq<char>, order: ByteOrder, n: nat)
    requires
        s.len() > 0 ==> s.last() != '\0',
        encode_utf8(s).len() <= n,
    ensures
        ValueType::String.decoded(order.pack(padded(encode_utf8(s), n)), order) == s,
{
    let bytes = encode_utf8(s);
    let wide = padded(bytes, n);
    lemma_unpack_pack(wide, order);
    assert(padded(wide, 2 * regs_for(n)) =~= padded(bytes, 2 * regs_for(n)));
    if s.len() > 0 {
        lemma_last_byte(s);
    } else {
        assert(bytes =~= Seq::<u8>::empty());
    }
    lemma_without_padding(bytes, 2 * regs_for(n));
    encode_utf8_valid_utf8(s);
    encode_utf8_decode_utf8(s);
}

/// A string that fits is stored, and decoding the registers gives it back,
/// unless it ends in NUL: trailing NULs are taken for padding.
pub proof fn lemma_string_round_trip(s: Seq<char>, order: ByteOrder, max_regs: nat)
    requires
        s.len() > 0 ==> s.last() != '\0',
        regs_for(encode_utf8(s).len()) <= max_regs,
    ensures
        ValueType::String.encoded(s, order, max_regs) matches Ok(words)
            && ValueType::String.decoded(words, order) == s,
{
    let bytes = encode_utf8(s);
    lemma_packed_text(s, order, bytes.len());
    assert(padded(bytes, bytes.len()) =~= bytes);
}

/// A string that fits its buffer is stored in the full width of the buffer, and
/// decoding the registers gives it back, unless it ends in NUL.
pub proof fn lemma_fixed_string_round_trip(
    s: Seq<char>,
    order: ByteOrder,
    max_regs: nat,
    max_bytes: nat,
)
    requires
        s.len() > 0 ==> s.last() != '\0',
        encode_utf8(s).len() <= max_bytes,
        regs_for(max_bytes) <= max_regs,
    ensures
        fixed_string(s, order, max_regs, max_bytes) matches Ok(words) && words.len() == regs_for(
            max_bytes,
        ) && ValueType::String.decoded(words, order) == s,
{
    lemma_packed_text(s, order, max_bytes);
}

} // verus!
