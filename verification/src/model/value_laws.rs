//! Where the bytes of a value lie in registers, for every type and byte order.

use vstd::prelude::*;
use vstd::utf8::{decode_utf8, encode_utf8, valid_utf8};

use super::byte_order::{byte_of, from_bytes, high, low, word, ByteOrder};
use super::value_type::{
    fixed_string, packed_string, padded, pattern, utf8_lossy, without_padding, ValueType,
};
use crate::float::{FloatKind, Reading};
use crate::text::{dec, dec_int, int_in, lemma_dec_int_reads_back};

verus! {

// ---------------------------------------------------------------------------
// Byte orders
// ---------------------------------------------------------------------------

/// The four orders of the bytes `b3 b2 b1 b0` of a 32-bit value, the most
/// significant first: ABCD keeps them, CDAB swaps the words, BADC swaps the
/// bytes of each word, DCBA does both. Decoding takes the same places.
pub proof fn lemma_layout32(b3: u8, b2: u8, b1: u8, b0: u8)
    ensures
        ({
            let v = (b3 * 0x100_0000 + b2 * 0x1_0000 + b1 * 0x100 + b0) as u32;
            let (w32, w10) = ((b3 * 256 + b2) as u16, (b1 * 256 + b0) as u16);
            let (w23, w01) = ((b2 * 256 + b3) as u16, (b0 * 256 + b1) as u16);
            &&& ByteOrder::Abcd.words32(v) == seq![w32, w10]
            &&& ByteOrder::Cdab.words32(v) == seq![w10, w32]
            &&& ByteOrder::Badc.words32(v) == seq![w23, w01]
            &&& ByteOrder::Dcba.words32(v) == seq![w01, w23]
            &&& ByteOrder::Abcd.value32(w32, w10) == v
            &&& ByteOrder::Cdab.value32(w10, w32) == v
            &&& ByteOrder::Badc.value32(w23, w01) == v
            &&& ByteOrder::Dcba.value32(w01, w23) == v
        }),
{
    let v = from_bytes(b3, b2, b1, b0);
    assert(v == b3 * 0x100_0000 + b2 * 0x1_0000 + b1 * 0x100 + b0);
    assert(v / 0x100_0000 == b3);
    assert(v / 0x1_0000 == b3 * 0x100 + b2);
    assert(v / 0x100 == b3 * 0x1_0000 + b2 * 0x100 + b1);
    assert(byte_of(v, 3) == b3 && byte_of(v, 2) == b2 && byte_of(v, 1) == b1 && byte_of(v, 0)
        == b0);
    assert(high(word(b3, b2)) == b3 && low(word(b3, b2)) == b2);
    assert(high(word(b1, b0)) == b1 && low(word(b1, b0)) == b0);
    assert(high(word(b2, b3)) == b2 && low(word(b2, b3)) == b3);
    assert(high(word(b0, b1)) == b0 && low(word(b0, b1)) == b1);
}

/// A 64-bit value takes four registers: its high half, then its low half, each
/// laid out as a 32-bit value. Decoding takes the same places.
pub proof fn lemma_layout64(order: ByteOrder, hi: u32, lo: u32)
    ensures
        ({
            let v = (hi * 0x1_0000_0000 + lo) as u64;
            let (h, l) = (order.words32(hi), order.words32(lo));
            &&& h.len() == 2
            &&& l.len() == 2
            &&& order.words64(v) == seq![h[0], h[1], l[0], l[1]]
            &&& order.value64(h[0], h[1], l[0], l[1]) == v
        }),
{
    let v = (hi * 0x1_0000_0000 + lo) as u64;
    order.lemma_words32_round_trip(hi);
    order.lemma_words32_round_trip(lo);
    assert(v / 0x1_0000_0000 == hi && v % 0x1_0000_0000 == lo);
    let (h, l) = (order.words32(hi), order.words32(lo));
    assert(order.words64(v) =~= seq![h[0], h[1], l[0], l[1]]);
}

// ---------------------------------------------------------------------------
// Numbers
// ---------------------------------------------------------------------------

/// Any text that spells a 16-bit integer is stored as its two's complement in
/// one register, whatever the byte order; any other text is refused.
pub proof fn lemma_text_of_16_bits(text: Seq<char>, order: ByteOrder, max_regs: nat)
    ensures
        ValueType::Uint16.encoded(text, order, max_regs) == (match int_in(text, 0, 0xFFFF) {
            Some(v) => Ok::<Seq<u16>, Seq<char>>(seq![v as u16]),
            None => Err("无效的 UInt16 数值"@),
        }),
        ValueType::Int16.encoded(text, order, max_regs) == (match int_in(text, -0x8000, 0x7FFF) {
            Some(v) => Ok::<Seq<u16>, Seq<char>>(seq![(v % 0x1_0000) as u16]),
            None => Err("无效的 Int16 数值"@),
        }),
{
    if int_in(text, -0x8000, 0x7FFF) is Some {
        let v = int_in(text, -0x8000, 0x7FFF)->0;
        assert(v % 0x1_0000 == pattern(v, 0x1_0000));
    }
}

/// Any text that spells a 32-bit integer is stored as its two's complement in
/// the byte order asked for; any other text is refused.
pub proof fn lemma_text_of_32_bits(text: Seq<char>, order: ByteOrder, max_regs: nat)
    ensures
        ValueType::Uint32.encoded(text, order, max_regs) == (match int_in(text, 0, 0xFFFF_FFFF) {
            Some(v) => Ok::<Seq<u16>, Seq<char>>(order.words32(v as u32)),
            None => Err("无效的 UInt32 数值"@),
        }),
        ValueType::Int32.encoded(text, order, max_regs) == (match int_in(
            text,
            -0x8000_0000,
            0x7FFF_FFFF,
        ) {
            Some(v) => Ok::<Seq<u16>, Seq<char>>(order.words32((v % 0x1_0000_0000) as u32)),
            None => Err("无效的 Int32 数值"@),
        }),
{
    if int_in(text, -0x8000_0000, 0x7FFF_FFFF) is Some {
        let v = int_in(text, -0x8000_0000, 0x7FFF_FFFF)->0;
        assert(v % 0x1_0000_0000 == pattern(v, 0x1_0000_0000));
    }
}

/// Any text that spells a 64-bit integer is stored as its two's complement in
/// the byte order asked for; any other text is refused.
pub proof fn lemma_text_of_64_bits(text: Seq<char>, order: ByteOrder, max_regs: nat)
    ensures
        ValueType::Uint64.encoded(text, order, max_regs) == (match int_in(
            text,
            0,
            0xFFFF_FFFF_FFFF_FFFF,
        ) {
            Some(v) => Ok::<Seq<u16>, Seq<char>>(order.words64(v as u64)),
            None => Err("无效的 UInt64 数值"@),
        }),
        ValueType::Int64.encoded(text, order, max_regs) == (match int_in(
            text,
            -0x8000_0000_0000_0000,
            0x7FFF_FFFF_FFFF_FFFF,
        ) {
            Some(v) => Ok::<Seq<u16>, Seq<char>>(
                order.words64((v % 0x1_0000_0000_0000_0000) as u64),
            ),
            None => Err("无效的 Int64 数值"@),
        }),
{
    if int_in(text, -0x8000_0000_0000_0000, 0x7FFF_FFFF_FFFF_FFFF) is Some {
        let v = int_in(text, -0x8000_0000_0000_0000, 0x7FFF_FFFF_FFFF_FFFF)->0;
        assert(v % 0x1_0000_0000_0000_0000 == pattern(v, 0x1_0000_0000_0000_0000));
    }
}

/// Any text that reads as a finite number is stored as the bits of that number
/// in the byte order asked for; any other text is refused.
pub proof fn lemma_text_of_floats(text: Seq<char>, order: ByteOrder, max_regs: nat)
    ensures
        ValueType::Float32.encoded(text, order, max_regs) == (match FloatKind::Single.reading(
            text,
        ) {
            Reading::Bits(b) => Ok::<Seq<u16>, Seq<char>>(order.words32(b as u32)),
            Reading::NotFinite => Err("浮点数必须为有限值"@),
            Reading::Invalid => Err("无效的 Float32 数值"@),
        }),
        ValueType::Double.encoded(text, order, max_regs) == (match FloatKind::Double.reading(
            text,
        ) {
            Reading::Bits(b) => Ok::<Seq<u16>, Seq<char>>(order.words64(b)),
            Reading::NotFinite => Err("浮点数必须为有限值"@),
            Reading::Invalid => Err("无效的 Double 数值"@),
        }),
{
}

/// One register shows as the number with its bits, whatever the byte order;
/// none shows as zero.
pub proof fn lemma_shown_16_bits(w: u16, order: ByteOrder, more: Seq<u16>)
    ensures
        ValueType::Uint16.decoded(seq![w] + more, order) == dec_int(w as int),
        ValueType::Int16.decoded(seq![w] + more, order) == dec_int(
            if w < 0x8000 {
                w as int
            } else {
                w - 0x1_0000
            },
        ),
        ValueType::Uint16.decoded(seq![], order) == dec_int(0),
        ValueType::Int16.decoded(seq![], order) == dec_int(0),
{
    let words = seq![w] + more;
    assert(words[0] == w);
}

/// The registers of a 32-bit pattern in a byte order, decoded in that order,
/// show as the number with that pattern; what follows them is left alone.
pub proof fn lemma_shown_32_bits(v: u32, order: ByteOrder, more: Seq<u16>)
    ensures
        ({
            let words = order.words32(v) + more;
            &&& ValueType::Uint32.decoded(words, order) == dec_int(v as int)
            &&& ValueType::Int32.decoded(words, order) == dec_int(
                if v < 0x8000_0000 {
                    v as int
                } else {
                    v - 0x1_0000_0000
                },
            )
            &&& ValueType::Float32.decoded(words, order) == FloatKind::Single.text(v as nat)
        }),
{
    order.lemma_words32_round_trip(v);
    let words = order.words32(v) + more;
    assert(words[0] == order.words32(v)[0] && words[1] == order.words32(v)[1]);
}

/// The registers of a 64-bit pattern in a byte order, decoded in that order,
/// show as the number with that pattern; what follows them is left alone.
pub proof fn lemma_shown_64_bits(v: u64, order: ByteOrder, more: Seq<u16>)
    ensures
        ({
            let words = order.words64(v) + more;
            &&& ValueType::Uint64.decoded(words, order) == dec_int(v as int)
            &&& ValueType::Int64.decoded(words, order) == dec_int(
                if v < 0x8000_0000_0000_0000 {
                    v as int
                } else {
                    v - 0x1_0000_0000_0000_0000
                },
            )
            &&& ValueType::Double.decoded(words, order) == FloatKind::Double.text(v as nat)
        }),
{
    order.lemma_words64_round_trip(v);
    let words = order.words64(v) + more;
    let w = order.words64(v);
    assert(words[0] == w[0] && words[1] == w[1] && words[2] == w[2] && words[3] == w[3]);
}

/// Decoding in one order what another laid out gives the number with its bytes
/// moved: between ABCD and DCBA they are reversed, between ABCD and CDAB the
/// halves change places, between ABCD and BADC the bytes of each half do.
pub proof fn lemma_orders_differ(b3: u8, b2: u8, b1: u8, b0: u8)
    ensures
        ({
            let v = (b3 * 0x100_0000 + b2 * 0x1_0000 + b1 * 0x100 + b0) as int;
            let t = ValueType::Uint32;
            let words = t.encoded(dec_int(v), ByteOrder::Abcd, 2);
            &&& words is Ok
            &&& words->Ok_0 == seq![(b3 * 256 + b2) as u16, (b1 * 256 + b0) as u16]
            &&& t.decoded(words->Ok_0, ByteOrder::Abcd) == dec_int(v)
            &&& t.decoded(words->Ok_0, ByteOrder::Cdab) == dec_int(
                b1 * 0x100_0000 + b0 * 0x1_0000 + b3 * 0x100 + b2,
            )
            &&& t.decoded(words->Ok_0, ByteOrder::Badc) == dec_int(
                b2 * 0x100_0000 + b3 * 0x1_0000 + b0 * 0x100 + b1,
            )
            &&& t.decoded(words->Ok_0, ByteOrder::Dcba) == dec_int(
                b0 * 0x100_0000 + b1 * 0x1_0000 + b2 * 0x100 + b3,
            )
        }),
{
    let v = (b3 * 0x100_0000 + b2 * 0x1_0000 + b1 * 0x100 + b0) as int;
    let words = seq![(b3 * 256 + b2) as u16, (b1 * 256 + b0) as u16];
    lemma_dec_int_reads_back(v, 0, 0xFFFF_FFFF);
    lemma_text_of_32_bits(dec_int(v), ByteOrder::Abcd, 2);
    assert(ByteOrder::Abcd.words32(v as u32) == words) by {
        lemma_layout32(b3, b2, b1, b0);
    }
    lemma_shown_unsigned(ByteOrder::Abcd, v as u32, words);
    lemma_shown_moved(b3, b2, b1, b0);
}

proof fn lemma_shown_unsigned(order: ByteOrder, v: u32, words: Seq<u16>)
    requires
        order.words32(v) == words,
    ensures
        ValueType::Uint32.decoded(words, order) == dec_int(v as int),
{
    lemma_shown_32_bits(v, order, seq![]);
    assert(words + seq![] =~= words);
}

proof fn lemma_shown_moved(b3: u8, b2: u8, b1: u8, b0: u8)
    ensures
        ({
            let words = seq![(b3 * 256 + b2) as u16, (b1 * 256 + b0) as u16];
            let t = ValueType::Uint32;
            &&& t.decoded(words, ByteOrder::Cdab) == dec_int(
                b1 * 0x100_0000 + b0 * 0x1_0000 + b3 * 0x100 + b2,
            )
            &&& t.decoded(words, ByteOrder::Badc) == dec_int(
                b2 * 0x100_0000 + b3 * 0x1_0000 + b0 * 0x100 + b1,
            )
            &&& t.decoded(words, ByteOrder::Dcba) == dec_int(
                b0 * 0x100_0000 + b1 * 0x1_0000 + b2 * 0x100 + b3,
            )
        }),
{
    let words = seq![(b3 * 256 + b2) as u16, (b1 * 256 + b0) as u16];
    let c = (b1 * 0x100_0000 + b0 * 0x1_0000 + b3 * 0x100 + b2) as u32;
    let b = (b2 * 0x100_0000 + b3 * 0x1_0000 + b0 * 0x100 + b1) as u32;
    let d = (b0 * 0x100_0000 + b1 * 0x1_0000 + b2 * 0x100 + b3) as u32;
    assert(ByteOrder::Cdab.words32(c) == words) by {
        lemma_layout32(b1, b0, b3, b2);
    }
    assert(ByteOrder::Badc.words32(b) == words) by {
        lemma_layout32(b2, b3, b0, b1);
    }
    assert(ByteOrder::Dcba.words32(d) == words) by {
        lemma_layout32(b0, b1, b2, b3);
    }
    lemma_shown_unsigned(ByteOrder::Cdab, c, words);
    lemma_shown_unsigned(ByteOrder::Badc, b, words);
    lemma_shown_unsigned(ByteOrder::Dcba, d, words);
}

// ---------------------------------------------------------------------------
// Strings
// ---------------------------------------------------------------------------

/// Register `i` of a packed row of bytes holds bytes `2 * i` and `2 * i + 1`: in
/// ABCD and BADC the first is the high byte, in CDAB and DCBA the low one. A
/// missing last byte is zero.
pub proof fn lemma_pair_in_register(order: ByteOrder, bytes: Seq<u8>, i: int)
    requires
        0 <= i < (bytes.len() + 1) / 2,
    ensures
        order.pack(bytes).len() == (bytes.len() + 1) / 2,
        ({
            let a = bytes[2 * i];
            let b: u8 = if 2 * i + 1 < bytes.len() {
                bytes[2 * i + 1]
            } else {
                0
            };
            order.pack(bytes)[i] == match order {
                ByteOrder::Abcd | ByteOrder::Badc => a * 256 + b,
                ByteOrder::Cdab | ByteOrder::Dcba => b * 256 + a,
            }
        }),
{
}

/// A text is stored as its UTF-8 bytes, two to a register, if they fit.
pub proof fn lemma_text_of_strings(text: Seq<char>, order: ByteOrder, max_regs: nat)
    ensures
        ({
            let bytes = encode_utf8(text);
            ValueType::String.encoded(text, order, max_regs) == if (bytes.len() + 1) / 2
                > max_regs {
                Err::<Seq<u16>, Seq<char>>(
                    "字符串需占用 "@ + dec((bytes.len() + 1) / 2) + " 个寄存器，超出上限 "@ + dec(
                        max_regs,
                    ) + " 个"@,
                )
            } else {
                Ok::<Seq<u16>, Seq<char>>(order.pack(bytes))
            }
        }),
{
}

/// A text in a buffer of `max_bytes` bytes is stored as its UTF-8 bytes with
/// zeros behind them, if the text fits the buffer and the buffer the registers.
pub proof fn lemma_text_of_buffers(
    text: Seq<char>,
    order: ByteOrder,
    max_regs: nat,
    max_bytes: nat,
)
    ensures
        ({
            let bytes = encode_utf8(text);
            let stored = fixed_string(text, order, max_regs, max_bytes);
            &&& stored is Ok <==> bytes.len() <= max_bytes && (max_bytes + 1) / 2 <= max_regs
            &&& stored is Ok ==> stored->Ok_0 == order.pack(
                bytes + Seq::new((max_bytes - bytes.len()) as nat, |i: int| 0u8),
            )
            &&& bytes.len() > max_bytes ==> stored == Err::<Seq<u16>, Seq<char>>(
                "字符串长度超出上限："@ + dec(bytes.len()) + " 字节 > 上限 "@ + dec(max_bytes)
                    + " 字节"@,
            )
            &&& bytes.len() <= max_bytes && (max_bytes + 1) / 2 > max_regs ==> stored == Err::<
                Seq<u16>,
                Seq<char>,
            >(
                "字符串需占用 "@ + dec((max_bytes + 1) / 2) + " 个寄存器，超出上限 "@ + dec(
                    max_regs,
                ) + " 个"@,
            )
        }),
{
    let bytes = encode_utf8(text);
    if bytes.len() <= max_bytes {
        assert(padded(bytes, max_bytes) =~= bytes + Seq::new(
            (max_bytes - bytes.len()) as nat,
            |i: int| 0u8,
        ));
    }
}

proof fn lemma_cut(bytes: Seq<u8>, n: nat)
    requires
        n <= bytes.len(),
        n > 0 ==> bytes[n - 1] != 0,
        forall|i: int| n <= i < bytes.len() ==> bytes[i] == 0,
    ensures
        without_padding(bytes) == bytes.take(n as int),
    decreases bytes.len(),
{
    if bytes.len() > n {
        let rest = bytes.drop_last();
        lemma_cut(rest, n);
        assert(rest.take(n as int) =~= bytes.take(n as int));
    } else {
        assert(bytes.take(n as int) =~= bytes);
    }
}

/// True when registers hold bytes, two each with the first one high in ABCD and
/// BADC and low in CDAB and DCBA, and zeros after them.
pub open spec fn lies_in(bytes: Seq<u8>, words: Seq<u16>, order: ByteOrder) -> bool {
    &&& bytes.len() <= 2 * words.len()
    &&& forall|i: int|
        0 <= i < words.len() ==> {
            let a: u8 = if 2 * i < bytes.len() {
                bytes[2 * i]
            } else {
                0
            };
            let b: u8 = if 2 * i + 1 < bytes.len() {
                bytes[2 * i + 1]
            } else {
                0
            };
            #[trigger] words[i] == match order {
                ByteOrder::Abcd | ByteOrder::Badc => a * 256 + b,
                ByteOrder::Cdab | ByteOrder::Dcba => b * 256 + a,
            }
        }
}

proof fn lemma_kept(bytes: Seq<u8>) -> (n: nat)
    ensures
        n <= bytes.len(),
        n > 0 ==> bytes[n - 1] != 0,
        forall|i: int| n <= i < bytes.len() ==> bytes[i] == 0,
        without_padding(bytes) == bytes.take(n as int),
    decreases bytes.len(),
{
    if bytes.len() > 0 && bytes.last() == 0 {
        let n = lemma_kept(bytes.drop_last());
        assert(bytes.drop_last().take(n as int) =~= bytes.take(n as int));
        assert forall|i: int| n <= i < bytes.len() implies bytes[i] == 0 by {
            if i < bytes.len() - 1 {
                assert(bytes.drop_last()[i] == bytes[i]);
            }
        }
        n
    } else {
        assert(bytes.take(bytes.len() as int) =~= bytes);
        bytes.len()
    }
}

/// The bytes of the string that registers hold lie in them.
pub proof fn lemma_string_lies_in(words: Seq<u16>, order: ByteOrder)
    ensures
        lies_in(packed_string(words, order), words, order),
        packed_string(words, order).len() > 0 ==> packed_string(words, order).last() != 0,
{
    let all = order.unpack(words);
    let n = lemma_kept(all);
    let bytes = packed_string(words, order);
    assert(bytes == all.take(n as int));
    assert forall|i: int| 0 <= i < words.len() implies {
        let a: u8 = if 2 * i < bytes.len() {
            bytes[2 * i]
        } else {
            0
        };
        let b: u8 = if 2 * i + 1 < bytes.len() {
            bytes[2 * i + 1]
        } else {
            0
        };
        #[trigger] words[i] == match order {
            ByteOrder::Abcd | ByteOrder::Badc => a * 256 + b,
            ByteOrder::Cdab | ByteOrder::Dcba => b * 256 + a,
        }
    } by {
        let w = words[i];
        assert((2 * i) / 2 == i && (2 * i) % 2 == 0);
        assert((2 * i + 1) / 2 == i && (2 * i + 1) % 2 == 1);
        assert(w == high(w) * 256 + low(w));
        let (a, b) = (all[2 * i], all[2 * i + 1]);
        assert(2 * i < n ==> bytes[2 * i] == a);
        assert(2 * i + 1 < n ==> bytes[2 * i + 1] == b);
        assert(2 * i >= n ==> a == 0);
        assert(2 * i + 1 >= n ==> b == 0);
    }
}

/// Registers show as the text of their bytes, two from each register in the
/// places that storing puts them, up to the last one that is not zero.
pub proof fn lemma_shown_strings(words: Seq<u16>, order: ByteOrder, bytes: Seq<u8>)
    requires
        lies_in(bytes, words, order),
        bytes.len() > 0 ==> bytes.last() != 0,
    ensures
        packed_string(words, order) == bytes,
        valid_utf8(bytes) ==> ValueType::String.decoded(words, order) == decode_utf8(bytes),
        !valid_utf8(bytes) ==> ValueType::String.decoded(words, order) == utf8_lossy(bytes),
{
    let all = order.unpack(words);
    assert forall|i: int| 0 <= i < all.len() implies all[i] == if i < bytes.len() {
        bytes[i]
    } else {
        0
    } by {
        let w = words[i / 2];
        assert(i == 2 * (i / 2) || i == 2 * (i / 2) + 1);
    }
    lemma_cut(all, bytes.len());
    assert(all.take(bytes.len() as int) =~= bytes);
}

} // verus!
