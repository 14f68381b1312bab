//! The width of a register value and the byte orders of values that span
//! several registers.

use vstd::prelude::*;

verus! {

/// Data width of a register value: 16-bit (one register) or 32-bit (two
/// consecutive registers).
#[derive(Clone, Copy, PartialEq, Eq, Debug, Structural)]
pub enum DataWidth {
    /// 16 bits = 1 register.
    Bits16,
    /// 32 bits = 2 consecutive registers.
    Bits32,
}

impl Default for DataWidth {
    fn default() -> (w: Self)
        ensures
            w == DataWidth::Bits16,
    {
        DataWidth::Bits16
    }
}

impl DataWidth {
    /// Number of registers occupied.
    pub fn registers(self) -> (n: usize)
        ensures
            n == (if self is Bits16 { 1int } else { 2 }),
    {
        match self {
            DataWidth::Bits16 => 1,
            DataWidth::Bits32 => 2,
        }
    }

    /// Number of bits.
    pub fn bits(self) -> (n: usize)
        ensures
            n == (if self is Bits16 { 16int } else { 32 }),
    {
        match self {
            DataWidth::Bits16 => 16,
            DataWidth::Bits32 => 32,
        }
    }

    /// Display label.
    pub fn label(self) -> (s: &'static str)
        ensures
            s@ == (match self {
                DataWidth::Bits16 => "16 位 (单寄存器)"@,
                DataWidth::Bits32 => "32 位 (双寄存器)"@,
            }),
    {
        match self {
            DataWidth::Bits16 => "16 位 (单寄存器)",
            DataWidth::Bits32 => "32 位 (双寄存器)",
        }
    }
}

/// The word with high byte `hi` and low byte `lo`.
pub open spec fn word(hi: u8, lo: u8) -> u16 {
    (hi * 256 + lo) as u16
}

/// The high byte of a word.
pub open spec fn high(w: u16) -> u8 {
    (w / 256) as u8
}

/// The low byte of a word.
pub open spec fn low(w: u16) -> u8 {
    (w % 256) as u8
}

/// Byte `k` of a 32-bit value, counted from the least significant one.
pub open spec fn byte_of(v: u32, k: int) -> u8 {
    if k == 0 {
        (v % 0x100) as u8
    } else if k == 1 {
        (v / 0x100 % 0x100) as u8
    } else if k == 2 {
        (v / 0x1_0000 % 0x100) as u8
    } else {
        (v / 0x100_0000) as u8
    }
}

/// The 32-bit value with bytes `b3 b2 b1 b0`, most significant first.
pub open spec fn from_bytes(b3: u8, b2: u8, b1: u8, b0: u8) -> u32 {
    (b3 * 0x100_0000 + b2 * 0x1_0000 + b1 * 0x100 + b0) as u32
}

proof fn lemma_from_bytes(b3: u8, b2: u8, b1: u8, b0: u8)
    ensures
        ({
            let v = from_bytes(b3, b2, b1, b0);
            byte_of(v, 3) == b3 && byte_of(v, 2) == b2 && byte_of(v, 1) == b1 && byte_of(v, 0) == b0
        }),
{
    let v = from_bytes(b3, b2, b1, b0);
    assert(v / 0x100_0000 == b3);
    assert(v / 0x1_0000 == b3 * 0x100 + b2);
    assert(v / 0x100 == b3 * 0x1_0000 + b2 * 0x100 + b1);
}

/// The word with high byte `hi` and low byte `lo`.
pub fn join_bytes(hi: u8, lo: u8) -> (w: u16)
    ensures
        w == word(hi, lo),
        high(w) == hi,
        low(w) == lo,
{
    hi as u16 * 256 + lo as u16
}

/// The high and the low byte of a word.
pub fn split_word(w: u16) -> (r: (u8, u8))
    ensures
        r.0 == high(w),
        r.1 == low(w),
        word(r.0, r.1) == w,
{
    ((w / 256) as u8, (w % 256) as u8)
}

/// The four byte orders for a 32-bit value that spans two 16-bit registers.
///
/// Let a 32-bit value have bytes (most significant first) `B3 B2 B1 B0`.
///
/// | Order | register 0 | register 1 | meaning                          |
/// |-------|------------|------------|----------------------------------|
/// | ABCD  | `B3 B2`    | `B1 B0`    | big-endian                       |
/// | CDAB  | `B1 B0`    | `B3 B2`    | words swapped                    |
/// | BADC  | `B2 B3`    | `B0 B1`    | bytes swapped within each word   |
/// | DCBA  | `B0 B1`    | `B2 B3`    | bytes and words swapped          |
#[derive(Clone, Copy, PartialEq, Eq, Debug, Structural)]
pub enum ByteOrder {
    /// ABCD, big-endian. Register 0 = high word.
    Abcd,
    /// CDAB, little-endian. Register 0 = low word.
    Cdab,
    /// BADC, big-endian with the bytes of each word swapped.
    Badc,
    /// DCBA, little-endian with bytes and words swapped.
    Dcba,
}

impl Default for ByteOrder {
    fn default() -> (o: Self)
        ensures
            o == ByteOrder::Abcd,
    {
        ByteOrder::Abcd
    }
}

impl ByteOrder {
    /// All supported orders, in the order in which they are offered and tried.
    pub const ALL: [ByteOrder; 4] = [
        ByteOrder::Abcd,
        ByteOrder::Cdab,
        ByteOrder::Badc,
        ByteOrder::Dcba,
    ];

    /// The two register words of a 32-bit value.
    pub open spec fn words32(self, v: u32) -> Seq<u16> {
        let (b3, b2, b1, b0) = (byte_of(v, 3), byte_of(v, 2), byte_of(v, 1), byte_of(v, 0));
        match self {
            ByteOrder::Abcd => seq![word(b3, b2), word(b1, b0)],
            ByteOrder::Cdab => seq![word(b1, b0), word(b3, b2)],
            ByteOrder::Badc => seq![word(b2, b3), word(b0, b1)],
            ByteOrder::Dcba => seq![word(b0, b1), word(b2, b3)],
        }
    }

    /// The 32-bit value that two register words hold.
    pub open spec fn value32(self, r0: u16, r1: u16) -> u32 {
        match self {
            ByteOrder::Abcd => from_bytes(high(r0), low(r0), high(r1), low(r1)),
            ByteOrder::Cdab => from_bytes(high(r1), low(r1), high(r0), low(r0)),
            ByteOrder::Badc => from_bytes(low(r0), high(r0), low(r1), high(r1)),
            ByteOrder::Dcba => from_bytes(low(r1), high(r1), low(r0), high(r0)),
        }
    }

    /// The four register words of a 64-bit value: the 32-bit layout of the high
    /// half, then that of the low half.
    pub open spec fn words64(self, v: u64) -> Seq<u16> {
        self.words32((v / 0x1_0000_0000) as u32) + self.words32((v % 0x1_0000_0000) as u32)
    }

    /// The 64-bit value that four register words hold.
    pub open spec fn value64(self, r0: u16, r1: u16, r2: u16, r3: u16) -> u64 {
        (self.value32(r0, r1) * 0x1_0000_0000 + self.value32(r2, r3)) as u64
    }

    /// Display label.
    pub fn name(self) -> (s: &'static str)
        ensures
            s@ == (match self {
                ByteOrder::Abcd => "ABCD (大端 Big-Endian)"@,
                ByteOrder::Cdab => "CDAB (小端 Little-Endian)"@,
                ByteOrder::Badc => "BADC (大端字交换 Word-Swap)"@,
                ByteOrder::Dcba => "DCBA (小端字节+字交换)"@,
            }),
    {
        match self {
            ByteOrder::Abcd => "ABCD (大端 Big-Endian)",
            ByteOrder::Cdab => "CDAB (小端 Little-Endian)",
            ByteOrder::Badc => "BADC (大端字交换 Word-Swap)",
            ByteOrder::Dcba => "DCBA (小端字节+字交换)",
        }
    }

    /// Short token.
    pub fn code(self) -> (s: &'static str)
        ensures
            s@ == (match self {
                ByteOrder::Abcd => "ABCD"@,
                ByteOrder::Cdab => "CDAB"@,
                ByteOrder::Badc => "BADC"@,
                ByteOrder::Dcba => "DCBA"@,
            }),
    {
        match self {
            ByteOrder::Abcd => "ABCD",
            ByteOrder::Cdab => "CDAB",
            ByteOrder::Badc => "BADC",
            ByteOrder::Dcba => "DCBA",
        }
    }

    /// Encode a 32-bit value into the two register words placed at `addr` and
    /// `addr + 1`.
    pub fn encode_u32(self, value: u32) -> (words: [u16; 2])
        ensures
            words@ == self.words32(value),
    {
        let b0: u8 = (value % 0x100) as u8;
        let b1: u8 = (value / 0x100 % 0x100) as u8;
        let b2: u8 = (value / 0x1_0000 % 0x100) as u8;
        let b3: u8 = (value / 0x100_0000) as u8;
        let words = match self {
            ByteOrder::Abcd => [join_bytes(b3, b2), join_bytes(b1, b0)],
            ByteOrder::Cdab => [join_bytes(b1, b0), join_bytes(b3, b2)],
            ByteOrder::Badc => [join_bytes(b2, b3), join_bytes(b0, b1)],
            ByteOrder::Dcba => [join_bytes(b0, b1), join_bytes(b2, b3)],
        };
        proof {
            assert(words@ =~= self.words32(value));
        }
        words
    }

    /// Decode two register words read from `addr` and `addr + 1` back into a
    /// 32-bit value.
    pub fn decode_u32(self, words: [u16; 2]) -> (value: u32)
        ensures
            value == self.value32(words[0], words[1]),
    {
        let (h0, l0) = split_word(words[0]);
        let (h1, l1) = split_word(words[1]);
        let (b3, b2, b1, b0) = match self {
            ByteOrder::Abcd => (h0, l0, h1, l1),
            ByteOrder::Cdab => (h1, l1, h0, l0),
            ByteOrder::Badc => (l0, h0, l1, h1),
            ByteOrder::Dcba => (l1, h1, l0, h0),
        };
        b3 as u32 * 0x100_0000 + b2 as u32 * 0x1_0000 + b1 as u32 * 0x100 + b0 as u32
    }

    /// Encode a 64-bit value into four register words. The 32-bit order is
    /// applied to the high and to the low half on its own.
    pub fn encode_u64(self, value: u64) -> (words: [u16; 4])
        ensures
            words@ == self.words64(value),
    {
        let hi = self.encode_u32((value / 0x1_0000_0000) as u32);
        let lo = self.encode_u32((value % 0x1_0000_0000) as u32);
        let words = [hi[0], hi[1], lo[0], lo[1]];
        proof {
            assert(words@ =~= hi@ + lo@);
        }
        words
    }

    /// Decode four register words back into a 64-bit value.
    pub fn decode_u64(self, words: [u16; 4]) -> (value: u64)
        ensures
            value == self.value64(words[0], words[1], words[2], words[3]),
    {
        let hi: u32 = self.decode_u32([words[0], words[1]]);
        let lo: u32 = self.decode_u32([words[2], words[3]]);
        hi as u64 * 0x1_0000_0000 + lo as u64
    }

    /// Decoding what a byte order encoded gives the 32-bit value back.
    #[verifier::rlimit(40)]
    pub proof fn lemma_words32_round_trip(self, v: u32)
        ensures
            self.words32(v).len() == 2,
            self.value32(self.words32(v)[0], self.words32(v)[1]) == v,
    {
    }

    /// Encoding what a byte order decoded gives the two register words back.
    pub proof fn lemma_value32_round_trip(self, r0: u16, r1: u16)
        ensures
            self.words32(self.value32(r0, r1)) == seq![r0, r1],
    {
        let (h0, l0, h1, l1) = (high(r0), low(r0), high(r1), low(r1));
        match self {
            ByteOrder::Abcd => lemma_from_bytes(h0, l0, h1, l1),
            ByteOrder::Cdab => lemma_from_bytes(h1, l1, h0, l0),
            ByteOrder::Badc => lemma_from_bytes(l0, h0, l1, h1),
            ByteOrder::Dcba => lemma_from_bytes(l1, h1, l0, h0),
        }
        assert(word(h0, l0) == r0 && word(h1, l1) == r1);
        assert(self.words32(self.value32(r0, r1)) =~= seq![r0, r1]);
    }

    /// Decoding what a byte order encoded gives the 64-bit value back.
    pub proof fn lemma_words64_round_trip(self, v: u64)
        ensures
            self.words64(v).len() == 4,
            ({
                let w = self.words64(v);
                self.value64(w[0], w[1], w[2], w[3]) == v
            }),
    {
        self.lemma_words32_round_trip((v / 0x1_0000_0000) as u32);
        self.lemma_words32_round_trip((v % 0x1_0000_0000) as u32);
    }

    /// Encoding what a byte order decoded gives the four register words back.
    pub proof fn lemma_value64_round_trip(self, r0: u16, r1: u16, r2: u16, r3: u16)
        ensures
            self.words64(self.value64(r0, r1, r2, r3)) == seq![r0, r1, r2, r3],
    {
        self.lemma_value32_round_trip(r0, r1);
        self.lemma_value32_round_trip(r2, r3);
        let v = self.value64(r0, r1, r2, r3);
        assert((v / 0x1_0000_0000) as u32 == self.value32(r0, r1));
        assert((v % 0x1_0000_0000) as u32 == self.value32(r2, r3));
        assert(self.words64(v) =~= seq![r0, r1, r2, r3]);
    }
}

} // verus!
